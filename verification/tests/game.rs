use comfy_wars::arena_model::Key;
use comfy_wars::game::{
    find_def, Actor, EntityDef, EntityOnMap, GameState, Selection, Team, UnitType, ENEMY_TEAM, HP_MAX,
    PLAYER_TEAM,
};
use comfy_wars::genarena::GenArena;
use comfy_wars::grid::Grid;
use comfy_wars::planner::{
    actor_cells, cells_in_range, highest_pos, movement_cost, plan_move, stamp, GOAL_PULL, KEEP_OUT,
    MOVE_REACH,
};
use comfy_wars::pos::Pos;
use comfy_wars::tasks::{MoveStep, MoveTask, GLIDE_TICKS};
use comfy_wars::terrain::{
    ground_from_code, terrain_cost, terrain_from_code, GameMap, GroundType, TerrainType, IMPASSABLE,
};
use comfy_wars::turn::{own_unit_at, play_frame, Frame};

type Draw = (i32, i32);

fn draw_at(p: Pos) -> Draw {
    (p.x * 16, p.y * 16)
}

fn defs() -> Vec<(String, EntityDef)> {
    vec![
        ("blue_infantry".to_string(), EntityDef { team: Team::Blue, unit_type: UnitType::Infantry }),
        ("red_infantry".to_string(), EntityDef { team: Team::Red, unit_type: UnitType::Infantry }),
        ("red_tank".to_string(), EntityDef { team: Team::Red, unit_type: UnitType::Tank }),
    ]
}

fn entity(def: &str, x: i32, y: i32) -> EntityOnMap {
    EntityOnMap { def: def.to_string(), pos: Pos::new(x, y) }
}

fn open_map(width: i32, height: i32) -> GameMap {
    let n = (width * height) as usize;
    GameMap::from_codes(width, height, &vec![1; n], &vec![0; n]).unwrap()
}

fn game(entities: Vec<EntityOnMap>) -> GameState<Draw> {
    GameState::new(&defs(), &entities, draw_at).unwrap()
}

fn row(grid: &Grid<i32>) -> Vec<i32> {
    grid.iter().into_iter().map(|c| c.2).collect()
}

#[test]
fn terrain_codes() {
    assert_eq!(Some(GroundType::Ground), ground_from_code(1));
    assert_eq!(Some(GroundType::Water), ground_from_code(2));
    assert_eq!(None, ground_from_code(0));
    assert_eq!(None, ground_from_code(3));
    assert_eq!(None, ground_from_code(-1));
    assert_eq!(Some(TerrainType::Bare), terrain_from_code(0));
    for code in 1..=4 {
        assert_eq!(Some(TerrainType::Street), terrain_from_code(code));
    }
    assert_eq!(Some(TerrainType::Forest), terrain_from_code(5));
    assert_eq!(None, terrain_from_code(6));
    assert_eq!(None, terrain_from_code(-1));
}

#[test]
fn terrain_costs() {
    assert_eq!(9999, IMPASSABLE);
    assert_eq!(9999, terrain_cost(GroundType::Water, TerrainType::Bare));
    assert_eq!(9999, terrain_cost(GroundType::Water, TerrainType::Street));
    assert_eq!(9999, terrain_cost(GroundType::Water, TerrainType::Forest));
    assert_eq!(2, terrain_cost(GroundType::Ground, TerrainType::Bare));
    assert_eq!(1, terrain_cost(GroundType::Ground, TerrainType::Street));
    assert_eq!(3, terrain_cost(GroundType::Ground, TerrainType::Forest));
}

#[test]
fn map_from_codes() {
    let map = GameMap::from_codes(3, 2, &vec![1, 1, 2, 1, 1, 1], &vec![0, 1, 0, 5, 0, 4]).unwrap();
    assert_eq!(3, map.ground.width());
    assert_eq!(2, map.terrain.height());
    assert_eq!(GroundType::Water, *map.ground.get(2, 0));
    assert_eq!(GroundType::Ground, *map.ground.get(0, 1));
    assert_eq!(TerrainType::Forest, *map.terrain.get(0, 1));
    assert_eq!(TerrainType::Street, *map.terrain.get(2, 1));
    assert_eq!(TerrainType::Bare, *map.terrain.get(1, 1));
}

#[test]
fn map_from_codes_refuses_bad_layers() {
    // a code without meaning
    assert!(GameMap::from_codes(2, 1, &vec![1, 3], &vec![0, 0]).is_none());
    assert!(GameMap::from_codes(2, 1, &vec![1, 1], &vec![0, 6]).is_none());
    // too few or too many codes
    assert!(GameMap::from_codes(2, 1, &vec![1], &vec![0, 0]).is_none());
    assert!(GameMap::from_codes(2, 1, &vec![1, 1], &vec![0, 0, 0]).is_none());
    assert!(GameMap::from_codes(0, 0, &vec![], &vec![]).is_some());
}

#[test]
fn teams() {
    assert_eq!(Team::Blue, PLAYER_TEAM);
    assert_eq!(Team::Red, ENEMY_TEAM);
    assert_eq!(10, HP_MAX);
}

#[test]
fn defs_are_found_by_name() {
    let defs = defs();
    assert_eq!(Team::Red, find_def(&defs, &"red_tank".to_string()).unwrap().team);
    assert_eq!(UnitType::Tank, find_def(&defs, &"red_tank".to_string()).unwrap().unit_type);
    assert!(find_def(&defs, &"green_tank".to_string()).is_none());
    assert!(find_def(&Vec::new(), &"red_tank".to_string()).is_none());
}

#[test]
fn game_starts_with_one_unit_per_entity() {
    let g = game(vec![entity("blue_infantry", 1, 2), entity("red_tank", 3, 0)]);
    assert!(matches!(g.selection, Selection::Idle));
    let units = g.actors.iter_keys();
    assert_eq!(2, units.len());
    let (k0, a0) = &units[0];
    assert_eq!((0, 0), (k0.index, k0.generation));
    assert_eq!(Pos::new(1, 2), a0.pos);
    assert_eq!((16, 32), a0.draw_pos);
    assert_eq!("blue_infantry", a0.sprite);
    assert_eq!(Team::Blue, a0.team);
    assert_eq!(UnitType::Infantry, a0.unit_type);
    assert_eq!(10, a0.hp);
    assert!(!a0.has_moved);
    let (k1, a1) = &units[1];
    assert_eq!((1, 0), (k1.index, k1.generation));
    assert_eq!(Pos::new(3, 0), a1.pos);
    assert_eq!((48, 0), a1.draw_pos);
    assert_eq!("red_tank", a1.sprite);
    assert_eq!(Team::Red, a1.team);
    assert_eq!(UnitType::Tank, a1.unit_type);
}

#[test]
fn game_needs_every_kind_defined() {
    let entities = vec![entity("blue_infantry", 1, 2), entity("green_tank", 3, 0)];
    assert!(GameState::<Draw>::new(&defs(), &entities, draw_at).is_none());
    assert!(GameState::<Draw>::new(&defs(), &Vec::new(), draw_at).is_some());
}

#[test]
fn movement_cost_of_ground_terrain_and_foes() {
    let map = GameMap::from_codes(3, 2, &vec![1, 1, 2, 1, 1, 1], &vec![0, 1, 0, 5, 0, 4]).unwrap();
    let g = game(vec![entity("blue_infantry", 0, 0), entity("red_infantry", 1, 1)]);
    let costs = movement_cost(&map, &g.actors, Team::Blue);
    assert_eq!(vec![2, 1, 9999, 3, 9999, 1], row(&costs));
    let costs = movement_cost(&map, &g.actors, Team::Red);
    assert_eq!(vec![9999, 1, 9999, 3, 2, 1], row(&costs));
}

#[test]
fn movement_cost_ignores_units_off_the_map() {
    let map = open_map(2, 1);
    let g = game(vec![entity("red_infantry", 2, 0), entity("red_infantry", -1, 0)]);
    assert_eq!(vec![2, 2], row(&movement_cost(&map, &g.actors, Team::Blue)));
}

#[test]
fn stamp_marks_cells_of_units() {
    let g = game(vec![entity("blue_infantry", 0, 0), entity("red_infantry", 2, 0), entity("red_tank", 9, 9)]);
    let mut grid = Grid::new(3, 1, 5);
    stamp(&mut grid, &g.actors, None, -99);
    assert_eq!(vec![-99, 5, -99], row(&grid));
    let mut grid = Grid::new(3, 1, 5);
    stamp(&mut grid, &g.actors, Some(Team::Blue), -99);
    assert_eq!(vec![5, 5, -99], row(&grid));
    let mut grid = Grid::new(3, 1, 5);
    stamp(&mut grid, &g.actors, Some(Team::Red), 7);
    assert_eq!(vec![7, 5, 5], row(&grid));
    assert_eq!(vec![Pos::new(0, 0), Pos::new(2, 0)], actor_cells(&grid, &g.actors));
}

#[test]
fn highest_pos_takes_the_last_of_equals() {
    let mut grid = Grid::new(3, 2, 0);
    assert_eq!(Pos::new(2, 1), highest_pos(&grid));
    *grid.get_mut(1, 0) = 4;
    assert_eq!(Pos::new(1, 0), highest_pos(&grid));
    *grid.get_mut(0, 1) = 4;
    assert_eq!(Pos::new(0, 1), highest_pos(&grid));
    *grid.get_mut(2, 0) = 5;
    assert_eq!(Pos::new(2, 0), highest_pos(&grid));
}

#[test]
fn cells_in_range_are_the_positive_ones() {
    let mut grid = Grid::new(3, 2, 0);
    *grid.get_mut(1, 0) = 4;
    *grid.get_mut(0, 1) = 1;
    *grid.get_mut(2, 1) = -1;
    assert_eq!(vec![Pos::new(1, 0), Pos::new(0, 1)], cells_in_range(&grid));
    assert!(cells_in_range(&Grid::new(2, 2, 0)).is_empty());
}

#[test]
fn plan_constants() {
    assert_eq!(9, MOVE_REACH);
    assert_eq!(99, GOAL_PULL);
    assert_eq!(-99, KEEP_OUT);
}

#[test]
fn plan_on_open_ground() {
    let map = open_map(5, 1);
    let g = game(vec![entity("blue_infantry", 0, 0)]);
    let plan = plan_move(&map, &g.actors, Pos::new(0, 0), Pos::new(3, 0)).unwrap();
    assert_eq!(vec![9, 7, 5, 3, 1], row(&plan.range));
    assert_eq!(vec![93, 95, 97, 99, 97], row(&plan.route));
    assert_eq!(
        vec![Pos::new(0, 0), Pos::new(1, 0), Pos::new(2, 0), Pos::new(3, 0)],
        plan.path
    );
}

#[test]
fn plan_stops_at_the_edge_of_the_range() {
    let map = open_map(7, 1);
    let g = game(vec![entity("blue_infantry", 0, 0)]);
    let plan = plan_move(&map, &g.actors, Pos::new(0, 0), Pos::new(6, 0)).unwrap();
    assert_eq!(vec![9, 7, 5, 3, 1, 0, 0], row(&plan.range));
    assert_eq!(vec![87, 89, 91, 93, 95, 0, 0], row(&plan.route));
    assert_eq!(
        vec![Pos::new(0, 0), Pos::new(1, 0), Pos::new(2, 0), Pos::new(3, 0), Pos::new(4, 0)],
        plan.path
    );
}

#[test]
fn plan_goal_off_the_map_pulls_to_the_nearest_cell() {
    let map = open_map(5, 1);
    let g = game(vec![entity("blue_infantry", 0, 0)]);
    let plan = plan_move(&map, &g.actors, Pos::new(0, 0), Pos::new(9, 0)).unwrap();
    assert_eq!(vec![9, 7, 5, 3, 1], row(&plan.range));
    // the cell nearest to the goal holds its pull and is the best in range
    assert_eq!(vec![91, 93, 95, 97, 99], row(&plan.route));
    assert_eq!(
        vec![Pos::new(0, 0), Pos::new(1, 0), Pos::new(2, 0), Pos::new(3, 0), Pos::new(4, 0)],
        plan.path
    );
}

#[test]
fn plan_does_not_pass_a_foe() {
    let map = open_map(5, 1);
    let g = game(vec![entity("blue_infantry", 0, 0), entity("red_infantry", 2, 0)]);
    let plan = plan_move(&map, &g.actors, Pos::new(0, 0), Pos::new(4, 0)).unwrap();
    assert_eq!(vec![9, 7, 0, 0, 0], row(&plan.range));
    assert_eq!(vec![-2, 0, -99, 0, 0], row(&plan.route));
    assert!(plan.path.is_empty());
}

#[test]
fn plan_passes_a_friend_but_does_not_stop_on_it() {
    let map = open_map(4, 1);
    let g = game(vec![entity("blue_infantry", 0, 0), entity("blue_infantry", 2, 0)]);
    let plan = plan_move(&map, &g.actors, Pos::new(0, 0), Pos::new(3, 0)).unwrap();
    assert_eq!(vec![9, 7, 5, 3], row(&plan.range));
    // the friend's cell is lifted again from beyond, so the path runs through it
    assert_eq!(vec![93, 95, 97, 99], row(&plan.route));
    assert_eq!(
        vec![Pos::new(0, 0), Pos::new(1, 0), Pos::new(2, 0), Pos::new(3, 0)],
        plan.path
    );
    // with the friend on the goal itself the goal is the best cell in range
    // no longer, and the path ends before it
    let g = game(vec![entity("blue_infantry", 0, 0), entity("blue_infantry", 3, 0)]);
    let plan = plan_move(&map, &g.actors, Pos::new(0, 0), Pos::new(3, 0)).unwrap();
    assert_eq!(vec![93, 95, 97, 95], row(&plan.route));
    assert_eq!(vec![Pos::new(0, 0), Pos::new(1, 0), Pos::new(2, 0)], plan.path);
}

#[test]
fn plan_needs_the_unit_on_the_map() {
    let map = open_map(3, 1);
    let g = game(vec![entity("blue_infantry", 0, 0)]);
    assert!(plan_move(&map, &g.actors, Pos::new(3, 0), Pos::new(1, 0)).is_none());
    assert!(plan_move(&map, &g.actors, Pos::new(0, -1), Pos::new(1, 0)).is_none());
    assert!(plan_move(&open_map(0, 0), &g.actors, Pos::new(0, 0), Pos::new(1, 0)).is_none());
}

#[test]
fn plan_around_water() {
    // water in the middle column but for the bottom row
    let map = GameMap::from_codes(
        3,
        3,
        &vec![1, 2, 1, 1, 2, 1, 1, 1, 1],
        &vec![1, 0, 1, 1, 0, 1, 1, 1, 1],
    )
    .unwrap();
    let g = game(vec![entity("blue_infantry", 0, 0)]);
    let plan = plan_move(&map, &g.actors, Pos::new(0, 0), Pos::new(2, 0)).unwrap();
    assert_eq!(vec![9, 0, 3, 8, 0, 4, 7, 6, 5], row(&plan.range));
    assert_eq!(
        vec![
            Pos::new(0, 0),
            Pos::new(0, 1),
            Pos::new(0, 2),
            Pos::new(1, 2),
            Pos::new(2, 2),
            Pos::new(2, 1),
            Pos::new(2, 0)
        ],
        plan.path
    );
}

#[test]
fn own_unit_under_the_pointer() {
    let g = game(vec![
        entity("red_infantry", 1, 1),
        entity("blue_infantry", 1, 1),
        entity("blue_infantry", 1, 1),
        entity("blue_infantry", 2, 1),
    ]);
    let found = own_unit_at(&g.actors, Pos::new(1, 1)).unwrap();
    assert_eq!(1, found.index);
    assert_eq!(3, own_unit_at(&g.actors, Pos::new(2, 1)).unwrap().index);
    assert!(own_unit_at(&g.actors, Pos::new(0, 0)).is_none());
}

#[test]
fn turn_idle_selects_own_unit_on_press() {
    let map = open_map(5, 1);
    let mut g = game(vec![entity("blue_infantry", 0, 0), entity("red_infantry", 4, 0)]);
    assert!(matches!(play_frame(&mut g, &map, Pos::new(0, 0), false), Frame::Pointing));
    assert!(matches!(g.selection, Selection::Idle));
    assert!(matches!(play_frame(&mut g, &map, Pos::new(4, 0), true), Frame::Pointing));
    assert!(matches!(g.selection, Selection::Idle));
    assert!(matches!(play_frame(&mut g, &map, Pos::new(2, 0), true), Frame::Pointing));
    assert!(matches!(g.selection, Selection::Idle));
    assert!(matches!(play_frame(&mut g, &map, Pos::new(0, 0), true), Frame::Pointing));
    match g.selection {
        Selection::Selected(key) => assert_eq!(0, key.index),
        _ => panic!("the unit under the pointer is selected"),
    }
}

#[test]
fn turn_selected_plans_and_starts_the_move_on_press() {
    let map = open_map(5, 1);
    let mut g = game(vec![entity("blue_infantry", 0, 0)]);
    play_frame(&mut g, &map, Pos::new(0, 0), true);
    match play_frame(&mut g, &map, Pos::new(3, 0), false) {
        Frame::Planning { unit, plan, order } => {
            assert_eq!(0, unit.index);
            assert!(order.is_none());
            assert_eq!(4, plan.unwrap().path.len());
        }
        _ => panic!("a selected unit is planned for"),
    }
    assert!(matches!(g.selection, Selection::Selected(_)));
    let task = match play_frame(&mut g, &map, Pos::new(3, 0), true) {
        Frame::Planning { plan, order, .. } => {
            assert_eq!(4, plan.unwrap().path.len());
            order.unwrap()
        }
        _ => panic!("a selected unit is planned for"),
    };
    assert!(matches!(g.selection, Selection::Moving(_)));
    assert_eq!(0, task.unit().index);
    assert_eq!(Pos::new(3, 0), task.destination());
    // while the unit moves nothing changes
    assert!(matches!(play_frame(&mut g, &map, Pos::new(1, 0), true), Frame::Waiting));
    assert!(matches!(g.selection, Selection::Moving(_)));
    task.finish(&mut g, (48, 0));
    assert!(matches!(g.selection, Selection::Confirm(_)));
    assert_eq!(Pos::new(3, 0), g.actors.iter()[0].pos);
    assert!(matches!(play_frame(&mut g, &map, Pos::new(1, 0), false), Frame::Waiting));
    assert!(matches!(g.selection, Selection::Idle));
}

#[test]
fn turn_selected_without_path_stays_selected() {
    let map = open_map(5, 1);
    let mut g = game(vec![entity("blue_infantry", 0, 0), entity("red_infantry", 2, 0)]);
    play_frame(&mut g, &map, Pos::new(0, 0), true);
    match play_frame(&mut g, &map, Pos::new(4, 0), true) {
        Frame::Planning { plan, order, .. } => {
            assert!(plan.unwrap().path.is_empty());
            assert!(order.is_none());
        }
        _ => panic!("a selected unit is planned for"),
    }
    assert!(matches!(g.selection, Selection::Selected(_)));
}

#[test]
fn turn_selected_unit_that_is_gone() {
    let map = open_map(5, 1);
    let mut g = game(vec![entity("blue_infantry", 0, 0)]);
    play_frame(&mut g, &map, Pos::new(0, 0), true);
    let key = match g.selection {
        Selection::Selected(key) => key,
        _ => panic!("selected"),
    };
    g.actors.remove(key);
    assert!(matches!(play_frame(&mut g, &map, Pos::new(3, 0), true), Frame::Waiting));
    assert!(matches!(g.selection, Selection::Selected(_)));
}

#[test]
fn turn_selected_unit_off_the_map_has_no_plan() {
    let map = open_map(2, 1);
    let mut g = game(vec![entity("blue_infantry", 5, 5)]);
    play_frame(&mut g, &map, Pos::new(5, 5), true);
    assert!(matches!(g.selection, Selection::Selected(_)));
    match play_frame(&mut g, &map, Pos::new(0, 0), true) {
        Frame::Planning { plan, order, .. } => {
            assert!(plan.is_none());
            assert!(order.is_none());
        }
        _ => panic!("a selected unit is planned for"),
    }
    assert!(matches!(g.selection, Selection::Selected(_)));
}

#[test]
fn move_task_glides_leg_by_leg_then_finishes() {
    let mut g = game(vec![entity("blue_infantry", 0, 0), entity("red_infantry", 4, 4)]);
    let key = g.actors.iter_keys()[0].0;
    let path = vec![Pos::new(0, 0), Pos::new(1, 0), Pos::new(1, 1)];
    let mut task = MoveTask::new(key, path.clone());
    assert_eq!(1, GLIDE_TICKS);
    for cell in &path {
        // asking again does not move the task on
        assert_eq!(MoveStep::Glide(*cell, 1), task.step());
        assert_eq!(MoveStep::Glide(*cell, 1), task.step());
        task.arrive();
    }
    assert_eq!(MoveStep::Finish, task.step());
    task.arrive();
    assert_eq!(MoveStep::Finish, task.step());
    task.finish(&mut g, (16, 16));
    let units = g.actors.iter();
    assert_eq!(Pos::new(1, 1), units[0].pos);
    assert_eq!((16, 16), units[0].draw_pos);
    assert_eq!(10, units[0].hp);
    assert_eq!("blue_infantry", units[0].sprite);
    assert_eq!(Pos::new(4, 4), units[1].pos);
    assert_eq!((64, 64), units[1].draw_pos);
    match g.selection {
        Selection::Confirm(k) => assert!(k == key),
        _ => panic!("the move waits to be confirmed"),
    }
}

#[test]
fn move_task_finished_early_ends_in_the_same_place() {
    let path = vec![Pos::new(0, 0), Pos::new(1, 0), Pos::new(2, 0)];
    let mut early = game(vec![entity("blue_infantry", 0, 0)]);
    let key = early.actors.iter_keys()[0].0;
    let mut task = MoveTask::new(key, path.clone());
    task.arrive();
    // the task is in the middle of its second leg when it is cut short
    assert_eq!(MoveStep::Glide(Pos::new(1, 0), 1), task.step());
    task.finish(&mut early, (32, 0));

    let mut late = game(vec![entity("blue_infantry", 0, 0)]);
    let mut task = MoveTask::new(key, path);
    task.arrive();
    task.arrive();
    task.arrive();
    task.finish(&mut late, (32, 0));

    assert_eq!(late.actors.iter()[0].pos, early.actors.iter()[0].pos);
    assert_eq!(late.actors.iter()[0].draw_pos, early.actors.iter()[0].draw_pos);
    assert_eq!(Pos::new(2, 0), early.actors.iter()[0].pos);
    assert!(matches!(early.selection, Selection::Confirm(_)));
    assert!(matches!(late.selection, Selection::Confirm(_)));
}

#[test]
fn move_task_of_a_unit_that_is_gone() {
    let mut g = game(vec![entity("blue_infantry", 0, 0), entity("red_infantry", 4, 4)]);
    let key: Key<Actor<Draw>> = g.actors.iter_keys()[0].0;
    g.actors.remove(key);
    let task = MoveTask::new(key, vec![Pos::new(0, 0), Pos::new(1, 0)]);
    task.finish(&mut g, (16, 0));
    assert_eq!(1, g.actors.iter().len());
    assert_eq!(Pos::new(4, 4), g.actors.iter()[0].pos);
    assert!(matches!(g.selection, Selection::Confirm(_)));
    let _unused: GenArena<u8> = GenArena::new();
}
