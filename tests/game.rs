use roguelike::components::{Monster, Name, Point, Position, Renderable, Rgb, Viewshed};
use roguelike::ecs::{ComponentKind, Entity, World};
use roguelike::map::{GameMap, TileType, MAP_COUNT, MAP_HEIGHT, MAP_WIDTH};
use roguelike::rect::Rect;
use roguelike::state::State;
use roguelike::systems::{view_contains, Key, RunState};
use roguelike::visibility::field_of_view;

fn white() -> Rgb {
    Rgb { r: 255, g: 255, b: 255 }
}

fn glyph(c: u16) -> Renderable {
    Renderable { glyph: c, fg: white(), bg: Rgb { r: 0, g: 0, b: 0 } }
}

fn viewshed(range: i32) -> Viewshed {
    Viewshed { visible_tiles: Vec::new(), range, dirty: true }
}

/// Two rooms with centers (5, 5) and (20, 5), joined along row 5.
fn two_room_map() -> GameMap {
    let mut map = GameMap::new_blank();
    assert!(map.try_add_room(2, 2, 6, 6, true));
    assert!(map.try_add_room(17, 2, 6, 6, true));
    assert_eq!(map.rooms[0].center(), (5, 5));
    assert_eq!(map.rooms[1].center(), (20, 5));
    map
}

fn spawn_player(world: &mut World, x: i32, y: i32, range: i32) -> Entity {
    let e = world.create_entity();
    world.insert_position(e, Position { x, y });
    world.insert_renderable(e, glyph(64));
    world.insert_player(e);
    world.insert_viewshed(e, viewshed(range));
    world.insert_name(e, Name { name: "Player".to_string() });
    world.player_pos = Some(Point { x, y });
    e
}

fn spawn_monster(world: &mut World, x: i32, y: i32, range: i32) -> Entity {
    let e = world.create_entity();
    world.insert_position(e, Position { x, y });
    world.insert_renderable(e, glyph(103));
    world.insert_monster(e);
    world.insert_viewshed(e, viewshed(range));
    world.insert_name(e, Name { name: "Goblin #0".to_string() });
    e
}

fn press(state: &mut State, key: Key) -> Vec<Entity> {
    state.tick(Some(key));
    state.tick(None)
}

#[test]
fn xy_idx_round_trip() {
    let map = GameMap::new_blank();
    for y in 0..MAP_HEIGHT {
        for x in 0..MAP_WIDTH {
            let idx = map.xy_idx(x, y);
            assert_eq!(idx, (y * 80 + x) as usize);
            assert_eq!(map.idx_to_xy(idx), (x, y));
        }
    }
    assert_eq!(map.xy_idx(79, 49), MAP_COUNT - 1);
}

#[test]
fn out_of_bounds_reads_as_wall() {
    let map = two_room_map();
    assert_eq!(map.tile_at(5, 5), TileType::Floor);
    assert_eq!(map.tile_at(-1, 5), TileType::Wall);
    assert_eq!(map.tile_at(80, 5), TileType::Wall);
    assert_eq!(map.tile_at(5, 50), TileType::Wall);
    assert_eq!(map.tile_at(i32::MIN, i32::MAX), TileType::Wall);
}

#[test]
fn rect_overlap_and_center() {
    let a = Rect::new(2, 2, 6, 6);
    assert_eq!(a, Rect { x1: 2, y1: 2, x2: 8, y2: 8 });
    assert_eq!(a.center(), (5, 5));
    assert!(a.intersect(&Rect::new(8, 8, 3, 3)));
    assert!(!a.intersect(&Rect::new(9, 2, 3, 3)));
}

#[test]
fn room_carving_and_refusals() {
    let mut map = GameMap::new_blank();
    assert!(map.try_add_room(2, 2, 6, 6, false));
    // interior is floor, the border stays wall
    assert_eq!(map.tile_at(3, 3), TileType::Floor);
    assert_eq!(map.tile_at(8, 8), TileType::Floor);
    assert_eq!(map.tile_at(2, 3), TileType::Wall);
    // overlapping room refused, map unchanged
    assert!(!map.try_add_room(5, 5, 6, 6, true));
    assert_eq!(map.rooms.len(), 1);
    // outside the margin refused
    assert!(!map.try_add_room(0, 2, 6, 6, true));
    assert!(!map.try_add_room(73, 2, 6, 6, true));
    assert!(!map.try_add_room(2, 2, 1, 6, true));
    // vertical first: column x=5 from 5 to 35, then row 35 to x=40
    assert!(map.try_add_room(37, 32, 6, 6, false));
    assert_eq!(map.rooms[1].center(), (40, 35));
    assert_eq!(map.tile_at(5, 20), TileType::Floor);
    assert_eq!(map.tile_at(20, 35), TileType::Floor);
    assert_eq!(map.tile_at(20, 5), TileType::Wall);
}

#[test]
fn tunnels_clip_to_the_grid() {
    let mut map = GameMap::new_blank();
    map.apply_horizontal_tunnel(75, 100, 3);
    assert_eq!(map.tile_at(79, 3), TileType::Floor);
    assert_eq!(map.tile_at(74, 3), TileType::Wall);
    map.apply_vertical_tunnel(10, -10, 0);
    assert_eq!(map.tile_at(0, 0), TileType::Floor);
    assert_eq!(map.tile_at(0, 10), TileType::Floor);
    assert_eq!(map.tile_at(0, 11), TileType::Wall);
    map.apply_horizontal_tunnel(0, 10, 60);
    assert_eq!(map.tiles.iter().filter(|t| **t == TileType::Floor).count(), 5 + 11);
}

fn check_generated(map: &GameMap) {
    assert!(!map.rooms.is_empty());
    for (i, a) in map.rooms.iter().enumerate() {
        assert!(a.x1 >= 0 && a.x2 < MAP_WIDTH && a.y1 >= 0 && a.y2 < MAP_HEIGHT);
        assert!(a.x2 - a.x1 >= 6 && a.x2 - a.x1 <= 10);
        assert!(a.y2 - a.y1 >= 6 && a.y2 - a.y1 <= 10);
        for b in map.rooms.iter().skip(i + 1) {
            assert!(!a.intersect(b));
        }
        let (cx, cy) = a.center();
        assert_eq!(map.tile_at(cx, cy), TileType::Floor);
    }
    // every room reaches room 0 through floor
    let mut seen = vec![false; MAP_COUNT];
    let (sx, sy) = map.rooms[0].center();
    let mut stack = vec![(sx, sy)];
    seen[map.xy_idx(sx, sy)] = true;
    while let Some((x, y)) = stack.pop() {
        for (nx, ny) in [(x - 1, y), (x + 1, y), (x, y - 1), (x, y + 1)] {
            if map.tile_at(nx, ny) == TileType::Floor {
                let idx = map.xy_idx(nx, ny);
                if !seen[idx] {
                    seen[idx] = true;
                    stack.push((nx, ny));
                }
            }
        }
    }
    for room in map.rooms.iter() {
        let (cx, cy) = room.center();
        assert!(seen[map.xy_idx(cx, cy)]);
    }
}

#[test]
fn generated_maps_keep_rooms_apart_and_connected() {
    for seed in 1..20u64 {
        let mut rng = rltk::RandomNumberGenerator::seeded(seed);
        let map = GameMap::new_map_rooms_and_corridors(&mut rng);
        check_generated(&map);
        // the random draws vary the rooms: a seeded map places several
        assert!(map.rooms.len() > 1);
        assert!(map.revealed_tiles.iter().all(|r| !*r));
    }
}

#[test]
fn field_of_view_on_open_row() {
    let map = two_room_map();
    let view = field_of_view(&map, 5, 5, 8);
    assert!(view.contains(&Point { x: 5, y: 5 }));
    assert!(view.contains(&Point { x: 13, y: 5 }));
    assert!(!view.contains(&Point { x: 14, y: 5 }));
    // walls are never in the view
    assert!(!view.contains(&Point { x: 2, y: 5 }));
    assert!(view.iter().all(|p| map.tile_at(p.x, p.y) == TileType::Floor));
    // out of the room, off the corridor: blocked
    assert!(!view.contains(&Point { x: 12, y: 4 }));
    assert!(field_of_view(&map, 5, 5, -1).is_empty());
    let only_self = field_of_view(&map, 5, 5, 0);
    assert_eq!(only_self, vec![Point { x: 5, y: 5 }]);
}

#[test]
fn view_shrinks_with_range_and_stops_growing() {
    let mut rng = rltk::RandomNumberGenerator::seeded(7);
    let map = GameMap::new_map_rooms_and_corridors(&mut rng);
    let (cx, cy) = map.rooms[0].center();
    let mut last: Vec<Point> = Vec::new();
    for range in 0..20 {
        let view = field_of_view(&map, cx, cy, range);
        assert!(last.iter().all(|p| view.contains(p)));
        assert!(view.len() >= last.len());
        last = view;
    }
    let far = field_of_view(&map, cx, cy, 93);
    let farther = field_of_view(&map, cx, cy, 500);
    assert_eq!(far, farther);
}

#[test]
fn pressing_right_five_times_moves_five_cells() {
    let mut world = World::new(two_room_map());
    let player = spawn_player(&mut world, 5, 5, 8);
    let mut state = State { ecs: world, runstate: RunState::Running };
    state.tick(None);
    assert_eq!(state.runstate, RunState::Paused);
    for _ in 0..5 {
        press(&mut state, Key::Right);
    }
    assert_eq!(state.ecs.position(player), Some(Position { x: 10, y: 5 }));
    assert_eq!(state.ecs.player_pos, Some(Point { x: 10, y: 5 }));
}

#[test]
fn moves_into_walls_are_cancelled() {
    let mut world = World::new(two_room_map());
    let player = spawn_player(&mut world, 3, 3, 8);
    world.try_move_player(-1, 0);
    assert_eq!(world.position(player), Some(Position { x: 3, y: 3 }));
    world.try_move_player(0, -1);
    assert_eq!(world.position(player), Some(Position { x: 3, y: 3 }));
    world.try_move_player(1, 0);
    assert_eq!(world.position(player), Some(Position { x: 4, y: 3 }));
    assert!(world.viewshed(player).unwrap().dirty);
    assert_eq!(world.player_pos, Some(Point { x: 4, y: 3 }));
}

#[test]
fn moves_at_the_edge_are_clamped() {
    let mut map = GameMap::new_blank();
    map.apply_horizontal_tunnel(0, 79, 0);
    map.apply_vertical_tunnel(0, 49, 79);
    let mut world = World::new(map);
    let player = spawn_player(&mut world, 0, 0, 8);
    world.try_move_player(-1, 0);
    assert_eq!(world.position(player), Some(Position { x: 0, y: 0 }));
    world.try_move_player(0, -1);
    assert_eq!(world.position(player), Some(Position { x: 0, y: 0 }));
    world.insert_position(player, Position { x: 79, y: 49 });
    world.try_move_player(1, 1);
    assert_eq!(world.position(player), Some(Position { x: 79, y: 49 }));
}

#[test]
fn other_keys_keep_the_game_waiting() {
    let mut world = World::new(two_room_map());
    let player = spawn_player(&mut world, 5, 5, 8);
    assert_eq!(world.player_input(None), RunState::Paused);
    assert_eq!(world.player_input(Some(Key::Other)), RunState::Paused);
    assert_eq!(world.position(player), Some(Position { x: 5, y: 5 }));
    // a direction runs the systems even when the step is blocked
    assert_eq!(world.player_input(Some(Key::Up)), RunState::Running);
    assert_eq!(world.position(player), Some(Position { x: 5, y: 4 }));
    assert_eq!(world.player_input(Some(Key::Down)), RunState::Running);
    assert_eq!(world.player_input(Some(Key::Left)), RunState::Running);
    assert_eq!(world.position(player), Some(Position { x: 4, y: 5 }));
}

#[test]
fn join_over_eleven_entities() {
    let mut world = World::new(two_room_map());
    let player = spawn_player(&mut world, 5, 5, 8);
    let mut decor: Vec<Entity> = Vec::new();
    for i in 0..10 {
        let e = world.create_entity();
        world.insert_position(e, Position { x: 3 + (i % 5), y: 3 + (i / 5) });
        world.insert_renderable(e, glyph(40 + i as u16));
        decor.push(e);
    }
    // an entity with a position only stays out of the join
    let lone = world.create_entity();
    world.insert_position(lone, Position { x: 6, y: 6 });
    let joined = world.join_positions_renderables();
    assert_eq!(joined.len(), 11);
    assert_eq!(joined[0].0, player);
    for (k, (e, p, r)) in joined.iter().enumerate() {
        assert_eq!(world.position(*e), Some(*p));
        assert_eq!(world.renderable(*e), Some(*r));
        if k > 0 {
            assert_eq!(*e, decor[k - 1]);
        }
    }
}

#[test]
fn deletions_wait_for_maintain() {
    let mut world = World::new(two_room_map());
    let a = spawn_monster(&mut world, 20, 5, 8);
    let b = spawn_monster(&mut world, 19, 5, 8);
    world.delete_entity(a);
    assert_eq!(world.position(a), Some(Position { x: 20, y: 5 }));
    assert_eq!(world.join_positions_renderables().len(), 2);
    world.maintain();
    assert_eq!(world.position(a), None);
    assert!(world.name(a).is_none());
    assert!(world.viewshed(a).is_none());
    assert_eq!(world.position(b), Some(Position { x: 19, y: 5 }));
    assert!(world.pending_deletes.is_empty());
    world.remove_component(b, ComponentKind::Renderable);
    assert_eq!(world.renderable(b), None);
    assert_eq!(world.join_positions_renderables().len(), 0);
}

#[test]
fn monster_alerts_when_player_enters_its_view() {
    let mut world = World::new(two_room_map());
    spawn_player(&mut world, 5, 5, 8);
    let monster = spawn_monster(&mut world, 20, 5, 8);
    let mut state = State { ecs: world, runstate: RunState::Running };
    let alerts = state.tick(None);
    assert!(alerts.is_empty());
    let view = &state.ecs.viewshed(monster).unwrap().visible_tiles;
    assert!(!view_contains(view, Point { x: 5, y: 5 }));
    assert!(view_contains(view, Point { x: 12, y: 5 }));
    for _ in 0..6 {
        assert!(press(&mut state, Key::Right).is_empty());
    }
    let alerts = press(&mut state, Key::Right);
    assert_eq!(state.ecs.player_pos, Some(Point { x: 12, y: 5 }));
    assert_eq!(alerts, vec![monster]);
    assert_eq!(state.ecs.name(monster).unwrap().name, "Goblin #0");
}

#[test]
fn no_alert_without_a_player_position() {
    let mut world = World::new(two_room_map());
    spawn_monster(&mut world, 20, 5, 8);
    world.visibility_system();
    assert!(world.monster_ai().is_empty());
}

#[test]
fn revealed_tiles_stay_revealed() {
    let mut world = World::new(two_room_map());
    spawn_player(&mut world, 5, 5, 3);
    let mut state = State { ecs: world, runstate: RunState::Running };
    state.tick(None);
    let first = state.ecs.map.revealed_tiles.clone();
    let idx = state.ecs.map.xy_idx(3, 3);
    assert!(first[idx]);
    assert!(state.ecs.map.visible_tiles[idx]);
    for _ in 0..10 {
        press(&mut state, Key::Right);
    }
    assert_eq!(state.ecs.player_pos, Some(Point { x: 15, y: 5 }));
    assert!(!state.ecs.map.visible_tiles[idx]);
    for (was, now) in first.iter().zip(state.ecs.map.revealed_tiles.iter()) {
        assert!(!*was || *now);
    }
    let far = state.ecs.map.xy_idx(18, 5);
    assert!(state.ecs.map.revealed_tiles[far]);
}

#[test]
fn only_visible_entities_are_drawn() {
    let mut world = World::new(two_room_map());
    spawn_player(&mut world, 5, 5, 8);
    spawn_monster(&mut world, 20, 5, 8);
    let mut state = State { ecs: world, runstate: RunState::Running };
    state.tick(None);
    let drawn = state.entities_in_view();
    assert_eq!(drawn.len(), 1);
    assert_eq!(drawn[0].0, Position { x: 5, y: 5 });
    assert_eq!(drawn[0].1.glyph, 64);
}

#[test]
fn no_alert_without_a_player_entity() {
    let mut world = World::new(two_room_map());
    let monster = spawn_monster(&mut world, 20, 5, 8);
    world.player_pos = Some(Point { x: 18, y: 5 });
    world.visibility_system();
    assert!(view_contains(&world.viewshed(monster).unwrap().visible_tiles, Point { x: 18, y: 5 }));
    assert!(world.monster_ai().is_empty());
}

#[test]
fn unnamed_monsters_do_not_alert() {
    let mut world = World::new(two_room_map());
    spawn_player(&mut world, 18, 5, 8);
    let monster = spawn_monster(&mut world, 20, 5, 8);
    world.visibility_system();
    assert_eq!(world.monster_ai(), vec![monster]);
    world.remove_component(monster, ComponentKind::Name);
    assert!(world.monster_ai().is_empty());
}

#[test]
fn field_of_view_lists_each_cell_once() {
    let map = two_room_map();
    let view = field_of_view(&map, 5, 5, 8);
    for (i, a) in view.iter().enumerate() {
        for b in view.iter().skip(i + 1) {
            assert_ne!(a, b);
        }
    }
}

#[test]
fn monsters_reveal_nothing() {
    let mut world = World::new(two_room_map());
    spawn_monster(&mut world, 20, 5, 8);
    world.visibility_system();
    assert!(world.map.revealed_tiles.iter().all(|r| !*r));
    assert!(world.map.visible_tiles.iter().all(|r| !*r));
}

#[test]
fn rect_center_rounds_down_for_negative_corners() {
    assert_eq!(Rect { x1: -3, x2: 0, y1: -5, y2: -4 }.center(), (-2, -5));
    assert_eq!(Rect { x1: i32::MIN, x2: i32::MAX, y1: i32::MAX, y2: i32::MAX }.center(), (-1, i32::MAX));
}

#[test]
fn running_frame_keeps_positions_and_deletes_pending() {
    let mut world = World::new(two_room_map());
    let player = spawn_player(&mut world, 5, 5, 8);
    let monster = spawn_monster(&mut world, 20, 5, 8);
    world.delete_entity(monster);
    let mut state = State { ecs: world, runstate: RunState::Running };
    assert!(state.tick(Some(Key::Right)).is_empty());
    assert_eq!(state.runstate, RunState::Paused);
    assert_eq!(state.ecs.position(player), Some(Position { x: 5, y: 5 }));
    assert_eq!(state.ecs.position(monster), None);
    assert!(!state.ecs.viewshed(player).unwrap().dirty);
}

#[test]
fn spawned_entities_carry_their_components() {
    let mut world = World::new(two_room_map());
    let p = world.spawn_player(5, 5, glyph(64), 8, Name { name: "Player".to_string() });
    let m = world.spawn_monster(20, 5, glyph(111), 6, Name { name: "Orc #0".to_string() });
    assert_eq!(world.player_pos, Some(Point { x: 5, y: 5 }));
    assert_eq!(world.player_entity(), Some(p));
    assert_eq!(world.position(m), Some(Position { x: 20, y: 5 }));
    assert_eq!(world.viewshed(m).unwrap().range, 6);
    assert!(world.viewshed(m).unwrap().dirty);
    assert_eq!(world.name(m).unwrap().name, "Orc #0");
    assert_eq!(world.monster_ai(), Vec::<Entity>::new());
}

#[test]
fn tile_view_follows_fog_of_war() {
    let mut world = World::new(two_room_map());
    world.spawn_player(5, 5, glyph(64), 2, Name { name: "Player".to_string() });
    world.visibility_system();
    let here = world.map.xy_idx(5, 5);
    assert_eq!(world.map.tile_view(here), Some((TileType::Floor, true)));
    assert_eq!(world.map.tile_view(world.map.xy_idx(20, 5)), None);
    world.try_move_player(1, 0);
    world.try_move_player(1, 0);
    world.try_move_player(1, 0);
    world.visibility_system();
    assert_eq!(world.map.tile_view(world.map.xy_idx(3, 5)), Some((TileType::Floor, false)));
}
