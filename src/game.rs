use vstd::prelude::*;
use vstd::string::StringExecFns;

use crate::map::{DungeonMap, MapError, FLOOR, MAX_SIZE, MIN_SIZE, WALL};
use crate::random::{random_below, thread_rng};
use crate::types::Vector;

verus! {

/// How many potions a new game tries to scatter over the map.
pub const LOOT_COUNT: usize = 10;

/// How many random cells are tried for each potion.
pub const LOOT_DRAWS: usize = 101;

/// The symbol drawn for a potion.
pub const POTION_SYMBOL: char = '!';

/// The whole state of a game: the map, the loot lying on it, the messages
/// shown so far and the player.
#[derive(Clone)]
pub struct Game {
    pub map: DungeonMap,
    pub loot: Vec<LootItem>,
    pub log: Vec<String>,
    pub player: Player,
}

/// The player's position and what they carry.
#[derive(Debug, Clone)]
pub struct Player {
    pos: Vector<usize>,
    inventory: Vec<LootItem>,
}

/// An item lying on the map or carried by the player.
#[derive(Debug, Clone)]
pub struct LootItem {
    pub pos: Vector<usize>,
    pub symbol: char,
    pub name: String,
}

/// The name of a potion.
pub open spec fn potion_name() -> Seq<char> {
    "Health Potion"@
}

/// The message logged when an item of the given name is picked up.
pub open spec fn pickup_message(name: Seq<char>) -> Seq<char> {
    "You picked up a "@ + name + "!"@
}

/// Whether `item` lies at `(x, y)`.
pub open spec fn lies_at(item: LootItem, x: int, y: int) -> bool {
    item.pos.x == x && item.pos.y == y
}

impl Player {
    /// Where the player stands.
    pub closed spec fn position(&self) -> Vector<usize> {
        self.pos
    }

    /// What the player carries, in the order it was picked up.
    pub closed spec fn items(&self) -> Seq<LootItem> {
        self.inventory@
    }

    pub fn new(pos: Vector<usize>, inv: Vec<LootItem>) -> (p: Player)
        ensures
            p.position() == pos,
            p.items() == inv@,
    {
        Player { pos, inventory: inv }
    }

    pub fn get_pos(&self) -> (r: &Vector<usize>)
        ensures
            *r == self.position(),
    {
        &self.pos
    }

    pub fn set_pos(&mut self, pos: Vector<usize>)
        ensures
            final(self).position() == pos,
            final(self).items() == old(self).items(),
    {
        self.pos = pos;
    }

    pub fn get_inventory(&self) -> (r: &Vec<LootItem>)
        ensures
            r@ == self.items(),
    {
        &self.inventory
    }

    pub fn set_inventory(&mut self, inv: Vec<LootItem>)
        ensures
            final(self).position() == old(self).position(),
            final(self).items() == inv@,
    {
        self.inventory = inv;
    }
}

/// `p + d`, where that is a coordinate below `bound`.
fn offset(p: usize, d: isize, bound: usize) -> (r: Option<usize>)
    ensures
        0 <= p + d < bound ==> r == Some((p + d) as usize),
        !(0 <= p + d < bound) ==> r is None,
{
    if d >= 0 {
        let forward = d as usize;
        if p < bound && forward < bound - p {
            Some(p + forward)
        } else {
            None
        }
    } else {
        let back = (-(d + 1)) as usize + 1;
        if back <= p && p - back < bound {
            Some(p - back)
        } else {
            None
        }
    }
}

impl Game {
    /// Whether `item` is a potion lying on a floor cell of `map` other than `start`.
    pub open spec fn potion_placed(map: DungeonMap, start: Vector<usize>, item: LootItem) -> bool {
        &&& map.in_bounds(item.pos.x as int, item.pos.y as int)
        &&& map.tile(item.pos.x as int, item.pos.y as int) != WALL
        &&& !(item.pos.x == start.x && item.pos.y == start.y)
        &&& item.symbol == POTION_SYMBOL
        &&& item.name@ == potion_name()
    }

    /// Starts a game on a newly generated map of the given size: the player
    /// stands at the center of the first room with nothing carried, and up to
    /// `LOOT_COUNT` potions lie on walkable cells other than the player's. Each
    /// potion is given `LOOT_DRAWS` random tries at a cell that is not on the
    /// border. Fails as `DungeonMap::new` does.
    pub fn new(map_w: usize, map_h: usize) -> (r: Result<Game, MapError>)
        requires
            map_w * map_h <= usize::MAX,
        ensures
            match r {
                Ok(g) => {
                    &&& g.map.wf()
                    &&& g.map.width == map_w
                    &&& g.map.height == map_h
                    &&& 1 <= g.map.rooms@.len()
                    &&& g.map.room_sizes_ok()
                    &&& (g.player.position().x as int, g.player.position().y as int)
                        == g.map.rooms@[0].center_spec()
                    &&& g.map.tile(g.player.position().x as int, g.player.position().y as int)
                        == FLOOR
                    &&& g.player.items().len() == 0
                    &&& g.log@.len() == 0
                    &&& g.loot@.len() <= LOOT_COUNT
                    &&& forall|k: int|
                        0 <= k < g.loot@.len() ==> Game::potion_placed(
                            g.map,
                            g.player.position(),
                            #[trigger] g.loot@[k],
                        )
                },
                Err(e) => e == MapError::ExhaustedPlacement,
            },
            map_w > MAX_SIZE + 2 && map_h > MAX_SIZE + 2 ==> r is Ok,
            map_w <= MIN_SIZE + 2 || map_h <= MIN_SIZE + 2 ==> r is Err,
    {
        let (map, x, y) = match DungeonMap::new(map_w, map_h) {
            Ok(t) => t,
            Err(e) => {
                return Err(e);
            },
        };
        proof {
            assert(map.rooms@[0].fits_in(map_w as int, map_h as int));
        }
        let mut game = Game {
            map,
            loot: Vec::new(),
            log: Vec::new(),
            player: Player::new(Vector { x, y }, Vec::new()),
        };
        let mut rng = thread_rng();
        let mut placed_count: usize = 0;
        while placed_count < LOOT_COUNT
            invariant
                game.map == map,
                game.player.position() == (Vector { x, y }),
                game.player.items().len() == 0,
                game.log@.len() == 0,
                3 <= map.width,
                3 <= map.height,
                game.map.grid_ok(),
                game.loot@.len() <= placed_count <= LOOT_COUNT,
                forall|k: int|
                    0 <= k < game.loot@.len() ==> Game::potion_placed(
                        map,
                        Vector { x, y },
                        #[trigger] game.loot@[k],
                    ),
            decreases LOOT_COUNT - placed_count,
        {
            let mut tries: usize = 0;
            let mut placed = false;
            while !placed && tries < LOOT_DRAWS
                invariant
                    game.map == map,
                    game.player.position() == (Vector { x, y }),
                    game.player.items().len() == 0,
                    game.log@.len() == 0,
                    3 <= map.width,
                    3 <= map.height,
                    game.map.grid_ok(),
                    game.loot@.len() <= placed_count + (if placed { 1int } else { 0 }),
                    placed_count < LOOT_COUNT,
                    forall|k: int|
                        0 <= k < game.loot@.len() ==> Game::potion_placed(
                            map,
                            Vector { x, y },
                            #[trigger] game.loot@[k],
                        ),
                decreases LOOT_DRAWS - tries,
            {
                let px = random_below(&mut rng, 1, game.map.width - 1);
                let py = random_below(&mut rng, 1, game.map.height - 1);
                let ghost before = game.loot@;
                placed = game.place_loot(px, py);
                proof {
                    if placed {
                        assert forall|k: int| 0 <= k < game.loot@.len() implies Game::potion_placed(
                            map,
                            Vector { x, y },
                            #[trigger] game.loot@[k],
                        ) by {
                            if k < before.len() {
                                assert(game.loot@[k] == game.loot@.drop_last()[k]);
                            }
                        }
                    }
                }
                tries = tries + 1;
            }
            placed_count = placed_count + 1;
        }
        Ok(game)
    }

    /// Lays a potion at `(x, y)` if that is a cell of the map that is no wall
    /// and not where the player stands; returns whether it did. Nothing else
    /// changes.
    pub fn place_loot(&mut self, x: usize, y: usize) -> (placed: bool)
        requires
            old(self).map.grid_ok(),
        ensures
            placed == (old(self).can_enter(x as int, y as int) && !(x == old(
                self,
            ).player.position().x && y == old(self).player.position().y)),
            placed ==> {
                &&& final(self).loot@.len() == old(self).loot@.len() + 1
                &&& final(self).loot@.drop_last() == old(self).loot@
                &&& final(self).loot@.last().pos.x == x
                &&& final(self).loot@.last().pos.y == y
                &&& final(self).loot@.last().symbol == POTION_SYMBOL
                &&& final(self).loot@.last().name@ == potion_name()
                &&& final(self).map == old(self).map
                &&& final(self).player == old(self).player
                &&& final(self).log@ == old(self).log@
            },
            !placed ==> *final(self) == *old(self),
    {
        if x < self.map.width && y < self.map.height && self.map.is_walkable(x, y) && !(x
            == self.player.pos.x && y == self.player.pos.y) {
            self.loot.push(
                LootItem {
                    pos: Vector { x, y },
                    symbol: POTION_SYMBOL,
                    name: String::from_str("Health Potion"),
                },
            );
            proof {
                assert(self.loot@.drop_last() =~= old(self).loot@);
            }
            true
        } else {
            false
        }
    }

    /// Whether the player may step onto `(x, y)`: a cell of the map that is no wall.
    pub open spec fn can_enter(&self, x: int, y: int) -> bool {
        self.map.in_bounds(x, y) && self.map.tile(x, y) != WALL
    }

    /// The state after the player has stepped to `(x, y)`, without picking anything up.
    pub open spec fn stepped(&self, final_state: Game, x: int, y: int) -> bool {
        &&& final_state.player.position().x == x
        &&& final_state.player.position().y == y
        &&& final_state.player.items() == self.player.items()
        &&& final_state.map == self.map
        &&& final_state.loot@ == self.loot@
        &&& final_state.log@ == self.log@
    }

    /// Moves the player by `(x, y)` where the target is a cell of the map that
    /// is no wall, and then picks up the first item lying there; otherwise
    /// nothing changes.
    pub fn move_player(&mut self, x: isize, y: isize)
        requires
            old(self).map.grid_ok(),
        ensures
            ({
                let tx = old(self).player.position().x + x;
                let ty = old(self).player.position().y + y;
                if old(self).can_enter(tx, ty) {
                    &&& final(self).player.position().x == tx
                    &&& final(self).player.position().y == ty
                    &&& old(self).picked_up(*final(self), tx, ty)
                } else {
                    *final(self) == *old(self)
                }
            }),
    {
        let target_x = offset(self.player.pos.x, x, self.map.width);
        let target_y = offset(self.player.pos.y, y, self.map.height);
        if let (Some(new_x), Some(new_y)) = (target_x, target_y) {
            if self.map.is_walkable(new_x, new_y) {
                self.player.pos.x = new_x;
                self.player.pos.y = new_y;
                self.pick_up_loot_at(new_x, new_y);
            }
        }
    }

    /// Applies one step read from the keyboard: `None` asks to quit and
    /// returns false; `Some((dx, dy))` moves the player by that step where the
    /// target is a cell of the map that is no wall, without picking anything
    /// up, and returns true.
    pub fn update(&mut self, direction: Option<(isize, isize)>) -> (running: bool)
        requires
            old(self).map.grid_ok(),
        ensures
            running == direction is Some,
            match direction {
                Some((dx, dy)) => {
                    let tx = old(self).player.position().x + dx;
                    let ty = old(self).player.position().y + dy;
                    if old(self).can_enter(tx, ty) {
                        old(self).stepped(*final(self), tx, ty)
                    } else {
                        *final(self) == *old(self)
                    }
                },
                None => *final(self) == *old(self),
            },
    {
        match direction {
            Some((dx, dy)) => {
                let target_x = offset(self.player.pos.x, dx, self.map.width);
                let target_y = offset(self.player.pos.y, dy, self.map.height);
                if let (Some(new_x), Some(new_y)) = (target_x, target_y) {
                    if self.map.is_walkable(new_x, new_y) {
                        self.player.pos.x = new_x;
                        self.player.pos.y = new_y;
                    }
                }
                true
            },
            None => false,
        }
    }

    /// The state after the first item lying at `(x, y)`, if any, has been
    /// moved from the map into the inventory with a message in the log; the
    /// map stays as it is.
    pub open spec fn picked_up(&self, final_state: Game, x: int, y: int) -> bool {
        &&& final_state.map == self.map
        &&& if exists|k: int| 0 <= k < self.loot@.len() && lies_at(#[trigger] self.loot@[k], x, y) {
            let k = choose|k: int|
                0 <= k < self.loot@.len() && lies_at(#[trigger] self.loot@[k], x, y) && forall|j: int|
                    0 <= j < k ==> !lies_at(#[trigger] self.loot@[j], x, y);
            &&& final_state.loot@ == self.loot@.remove(k)
            &&& final_state.player.items() == self.player.items().push(self.loot@[k])
            &&& final_state.log@.len() == self.log@.len() + 1
            &&& final_state.log@.drop_last() == self.log@
            &&& final_state.log@.last()@ == pickup_message(self.loot@[k].name@)
        } else {
            &&& final_state.loot@ == self.loot@
            &&& final_state.player.items() == self.player.items()
            &&& final_state.log@ == self.log@
        }
    }

    /// The index of the first item lying at `(x, y)`.
    fn find_loot_at(&self, x: usize, y: usize) -> (r: Option<usize>)
        ensures
            match r {
                Some(k) => {
                    &&& k < self.loot@.len()
                    &&& lies_at(self.loot@[k as int], x as int, y as int)
                    &&& forall|j: int| 0 <= j < k ==> !lies_at(#[trigger] self.loot@[j], x as int, y as int)
                },
                None => forall|j: int|
                    0 <= j < self.loot@.len() ==> !lies_at(#[trigger] self.loot@[j], x as int, y as int),
            },
    {
        let mut k: usize = 0;
        while k < self.loot.len()
            invariant
                k <= self.loot@.len(),
                forall|j: int| 0 <= j < k ==> !lies_at(#[trigger] self.loot@[j], x as int, y as int),
            decreases self.loot@.len() - k,
        {
            if self.loot[k].pos.x == x && self.loot[k].pos.y == y {
                return Some(k);
            }
            k = k + 1;
        }
        None
    }

    /// Moves the first item lying at `(x, y)`, if any, into the inventory and
    /// logs a message naming it.
    fn pick_up_loot_at(&mut self, x: usize, y: usize)
        ensures
            old(self).picked_up(*final(self), x as int, y as int),
            final(self).player.position() == old(self).player.position(),
    {
        match self.find_loot_at(x, y) {
            Some(index) => {
                let ghost k = index as int;
                let item = self.loot.remove(index);
                let mut message = String::from_str("You picked up a ");
                message.append(item.name.as_str());
                message.append("!");
                self.log.push(message);
                self.player.inventory.push(item);
                proof {
                    let k2 = choose|k: int|
                        0 <= k < old(self).loot@.len() && lies_at(#[trigger] old(self).loot@[k], x as int, y as int) && forall|j: int|
                            0 <= j < k ==> !lies_at(#[trigger] old(self).loot@[j], x as int, y as int);
                    assert(k2 == k) by {
                        if k2 < k {
                        } else if k < k2 {
                        }
                    }
                    assert(self.log@.drop_last() =~= old(self).log@);
                }
            },
            None => {},
        }
    }
}

} // verus!
