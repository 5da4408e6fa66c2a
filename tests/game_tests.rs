use dungeon::game::{Game, LootItem, Player, LOOT_COUNT, POTION_SYMBOL};
use dungeon::input::direction_for_key;
use dungeon::map::{DungeonMap, MapError, Rect, WALL};
use dungeon::types::Vector;

/// A 20 by 12 map with one room covering columns 1..6 and rows 1..6.
fn one_room_game(x: usize, y: usize) -> Game {
    let mut map = DungeonMap::blank(20, 12);
    assert!(map.try_add_room(Rect::new(1, 1, 5, 5), true));
    Game {
        map,
        loot: Vec::new(),
        log: Vec::new(),
        player: Player::new(Vector { x, y }, Vec::new()),
    }
}

fn potion_at(x: usize, y: usize) -> LootItem {
    LootItem { pos: Vector { x, y }, symbol: '!', name: "Health Potion".to_string() }
}

#[test]
fn move_into_wall_is_rejected() {
    let mut g = one_room_game(5, 3);
    assert_eq!(g.map.get_tile(6, 3), WALL);
    g.move_player(1, 0);
    assert_eq!((g.player.get_pos().x, g.player.get_pos().y), (5, 3));
}

#[test]
fn move_onto_floor_is_taken() {
    let mut g = one_room_game(3, 3);
    g.move_player(1, 0);
    assert_eq!((g.player.get_pos().x, g.player.get_pos().y), (4, 3));
    g.move_player(0, -1);
    assert_eq!((g.player.get_pos().x, g.player.get_pos().y), (4, 2));
}

#[test]
fn move_off_the_grid_is_rejected() {
    let mut map = DungeonMap::blank(3, 3);
    map.tiles = vec!['.'; 9];
    let mut g = Game {
        map,
        loot: Vec::new(),
        log: Vec::new(),
        player: Player::new(Vector { x: 0, y: 0 }, Vec::new()),
    };
    g.move_player(-1, 0);
    g.move_player(0, -1);
    assert_eq!((g.player.get_pos().x, g.player.get_pos().y), (0, 0));
    g.player.set_pos(Vector { x: 2, y: 2 });
    g.move_player(1, 0);
    g.move_player(0, 1);
    assert_eq!((g.player.get_pos().x, g.player.get_pos().y), (2, 2));
}

#[test]
fn moving_onto_loot_picks_it_up() {
    let mut g = one_room_game(3, 3);
    g.loot.push(potion_at(4, 3));
    g.loot.push(potion_at(2, 2));
    g.move_player(1, 0);
    assert_eq!(g.loot.len(), 1);
    assert_eq!((g.loot[0].pos.x, g.loot[0].pos.y), (2, 2));
    assert_eq!(g.player.get_inventory().len(), 1);
    assert_eq!(g.player.get_inventory()[0].name, "Health Potion");
    assert_eq!(g.log, vec!["You picked up a Health Potion!".to_string()]);
}

#[test]
fn only_the_first_item_at_a_cell_is_picked_up() {
    let mut g = one_room_game(3, 3);
    let mut gem = potion_at(4, 3);
    gem.name = "Gem".to_string();
    g.loot.push(gem);
    g.loot.push(potion_at(4, 3));
    g.move_player(1, 0);
    assert_eq!(g.loot.len(), 1);
    assert_eq!(g.loot[0].name, "Health Potion");
    assert_eq!(g.player.get_inventory()[0].name, "Gem");
    assert_eq!(g.log, vec!["You picked up a Gem!".to_string()]);
}

#[test]
fn update_moves_without_pickup_and_quits_on_none() {
    let mut g = one_room_game(3, 3);
    g.loot.push(potion_at(4, 3));
    assert!(g.update(Some((1, 0))));
    assert_eq!((g.player.get_pos().x, g.player.get_pos().y), (4, 3));
    assert_eq!(g.loot.len(), 1);
    assert!(g.log.is_empty());
    assert!(g.update(Some((0, 0))));
    assert_eq!((g.player.get_pos().x, g.player.get_pos().y), (4, 3));
    assert!(g.update(Some((2, 0))));
    assert_eq!((g.player.get_pos().x, g.player.get_pos().y), (4, 3));
    assert!(!g.update(None));
    assert_eq!((g.player.get_pos().x, g.player.get_pos().y), (4, 3));
}

#[test]
fn place_loot_only_on_free_floor() {
    let mut g = one_room_game(3, 3);
    assert!(!g.place_loot(3, 3));
    assert!(!g.place_loot(7, 7));
    assert!(!g.place_loot(25, 1));
    assert!(g.loot.is_empty());
    assert!(g.place_loot(2, 4));
    assert_eq!(g.loot.len(), 1);
    assert_eq!((g.loot[0].pos.x, g.loot[0].pos.y), (2, 4));
    assert_eq!(g.loot[0].symbol, POTION_SYMBOL);
    assert_eq!(g.loot[0].name, "Health Potion");
}

#[test]
fn new_game_starts_in_first_room() {
    let g = Game::new(60, 20).unwrap();
    let start = *g.player.get_pos();
    assert_eq!((start.x, start.y), g.map.rooms[0].center());
    assert!(g.map.is_walkable(start.x, start.y));
    assert!(g.player.get_inventory().is_empty());
    assert!(g.log.is_empty());
    assert!(g.loot.len() <= LOOT_COUNT);
    for item in &g.loot {
        assert!(g.map.is_walkable(item.pos.x, item.pos.y));
        assert!((item.pos.x, item.pos.y) != (start.x, start.y));
        assert_eq!(item.symbol, '!');
    }
}

#[test]
fn new_game_scatters_loot() {
    let most = (0..20).map(|_| Game::new(80, 25).unwrap().loot.len()).max().unwrap();
    assert!(most > 0);
}

#[test]
fn new_game_on_tiny_grid_fails() {
    assert!(matches!(Game::new(5, 5), Err(MapError::ExhaustedPlacement)));
}

#[test]
fn player_accessors() {
    let mut p = Player::new(Vector { x: 1, y: 2 }, Vec::new());
    assert_eq!((p.get_pos().x, p.get_pos().y), (1, 2));
    p.set_pos(Vector { x: 7, y: 8 });
    assert_eq!((p.get_pos().x, p.get_pos().y), (7, 8));
    p.set_inventory(vec![potion_at(0, 0)]);
    assert_eq!(p.get_inventory().len(), 1);
    assert_eq!((p.get_pos().x, p.get_pos().y), (7, 8));
}

#[test]
fn keys_map_to_steps() {
    assert_eq!(direction_for_key(Some('w')), Some((0, -1)));
    assert_eq!(direction_for_key(Some('s')), Some((0, 1)));
    assert_eq!(direction_for_key(Some('a')), Some((-1, 0)));
    assert_eq!(direction_for_key(Some('d')), Some((1, 0)));
    assert_eq!(direction_for_key(Some('q')), None);
    assert_eq!(direction_for_key(Some('x')), Some((0, 0)));
    assert_eq!(direction_for_key(None), Some((0, 0)));
}
