use vstd::prelude::*;
use crate::rect::Rect;
use crate::random::roll_die;

verus! {

pub const MAP_WIDTH: i32 = 80;
pub const MAP_HEIGHT: i32 = 50;
pub const MAP_COUNT: usize = 4000;

/// What one cell of the grid is made of.
#[derive(Clone, Copy, Debug, PartialEq, Eq, Structural)]
pub enum TileType {
    Wall,
    Floor,
}

/// Whether `(x, y)` is a cell of the grid.
pub open spec fn in_bounds(x: int, y: int) -> bool {
    0 <= x < MAP_WIDTH && 0 <= y < MAP_HEIGHT
}

/// Row-major index of the cell `(x, y)`.
pub open spec fn idx_of(x: int, y: int) -> int {
    y * MAP_WIDTH + x
}

pub open spec fn min_int(a: int, b: int) -> int {
    if a <= b { a } else { b }
}

pub open spec fn max_int(a: int, b: int) -> int {
    if a <= b { b } else { a }
}

/// Whether `(x, y)` lies strictly inside `room`: its border stays wall.
pub open spec fn in_interior(room: Rect, x: int, y: int) -> bool {
    room.x1 < x <= room.x2 && room.y1 < y <= room.y2
}

/// Whether a room lies inside the grid, with an interior that holds its center.
pub open spec fn room_in_bounds(room: Rect) -> bool {
    0 <= room.x1 && room.x1 + 2 <= room.x2 < MAP_WIDTH
    && 0 <= room.y1 && room.y1 + 2 <= room.y2 < MAP_HEIGHT
}

/// The dungeon: a grid of tiles, the rooms carved into it, and what the
/// player has seen and sees now.
pub struct GameMap {
    pub tiles: Vec<TileType>,
    pub rooms: Vec<Rect>,
    pub revealed_tiles: Vec<bool>,
    pub visible_tiles: Vec<bool>,
}

impl GameMap {
    pub open spec fn wf(&self) -> bool {
        self.tiles@.len() == MAP_COUNT
        && self.revealed_tiles@.len() == MAP_COUNT
        && self.visible_tiles@.len() == MAP_COUNT
    }

    pub open spec fn tile(&self, x: int, y: int) -> TileType {
        self.tiles@[idx_of(x, y)]
    }

    pub open spec fn is_floor(&self, x: int, y: int) -> bool {
        in_bounds(x, y) && self.tile(x, y) == TileType::Floor
    }

    /// Every cell from `xa` to `xb` on row `y` is floor.
    pub open spec fn row_floor(&self, xa: int, xb: int, y: int) -> bool {
        forall|x: int| min_int(xa, xb) <= x <= max_int(xa, xb) ==> #[trigger] self.is_floor(x, y)
    }

    /// Every cell from `ya` to `yb` on column `x` is floor.
    pub open spec fn column_floor(&self, ya: int, yb: int, x: int) -> bool {
        forall|y: int| min_int(ya, yb) <= y <= max_int(ya, yb) ==> #[trigger] self.is_floor(x, y)
    }

    /// An L-shaped path of floor joins `a` and `b`: along a row then a
    /// column, or along a column then a row.
    pub open spec fn linked(&self, a: (int, int), b: (int, int)) -> bool {
        (self.row_floor(a.0, b.0, a.1) && self.column_floor(a.1, b.1, b.0))
        || (self.column_floor(a.1, b.1, a.0) && self.row_floor(a.0, b.0, b.1))
    }

    pub open spec fn center_of(&self, i: int) -> (int, int) {
        self.rooms@[i].center_spec()
    }

    /// Room `i` is joined to room 0 by a chain of L-shaped floor paths
    /// through the rooms before it.
    pub open spec fn chained_to_first(&self, i: nat) -> bool
        decreases i,
    {
        if i == 0 {
            true
        } else {
            self.linked(self.center_of(i - 1), self.center_of(i as int))
            && self.chained_to_first((i - 1) as nat)
        }
    }

    /// What map generation keeps true of the rooms it has accepted.
    pub open spec fn rooms_valid(&self) -> bool {
        &&& self.wf()
        &&& forall|i: int| 0 <= i < self.rooms@.len() ==> room_in_bounds(#[trigger] self.rooms@[i])
        &&& forall|i: int, j: int|
            0 <= i < self.rooms@.len() && 0 <= j < self.rooms@.len() && i != j
            ==> !(#[trigger] self.rooms@[i]).overlaps(#[trigger] self.rooms@[j])
        &&& forall|i: int| 0 <= i < self.rooms@.len()
            ==> self.is_floor(#[trigger] self.center_of(i).0, self.center_of(i).1)
        &&& forall|i: int| 0 < i < self.rooms@.len()
            ==> self.linked(self.center_of(i - 1), #[trigger] self.center_of(i))
    }

    /// No floor cell of `self` turns back into wall in `other`.
    pub open spec fn floor_kept(&self, other: &GameMap) -> bool {
        forall|x: int, y: int| #[trigger] self.is_floor(x, y) ==> other.is_floor(x, y)
    }

    /// A map of solid wall, with no room, nothing seen and nothing visible.
    pub fn new_blank() -> (m: GameMap)
        ensures
            m.wf(),
            m.rooms@.len() == 0,
            forall|i: int| 0 <= i < MAP_COUNT ==> m.tiles@[i] == TileType::Wall,
            forall|i: int| 0 <= i < MAP_COUNT ==> !m.revealed_tiles@[i] && !m.visible_tiles@[i],
    {
        let mut tiles: Vec<TileType> = Vec::new();
        let mut revealed_tiles: Vec<bool> = Vec::new();
        let mut visible_tiles: Vec<bool> = Vec::new();
        let mut i: usize = 0;
        while i < MAP_COUNT
            invariant
                i <= MAP_COUNT,
                tiles@.len() == i,
                revealed_tiles@.len() == i,
                visible_tiles@.len() == i,
                forall|k: int| 0 <= k < i ==> tiles@[k] == TileType::Wall,
                forall|k: int| 0 <= k < i ==> !revealed_tiles@[k] && !visible_tiles@[k],
            decreases MAP_COUNT - i,
        {
            tiles.push(TileType::Wall);
            revealed_tiles.push(false);
            visible_tiles.push(false);
            i = i + 1;
        }
        GameMap { tiles, rooms: Vec::new(), revealed_tiles, visible_tiles }
    }

    /// Row-major index of the cell `(x, y)`.
    pub fn xy_idx(&self, x: i32, y: i32) -> (r: usize)
        requires
            in_bounds(x as int, y as int),
        ensures
            r as int == idx_of(x as int, y as int),
            r < MAP_COUNT,
    {
        (y as usize) * 80 + (x as usize)
    }

    /// The cell whose row-major index is `idx`.
    pub fn idx_to_xy(&self, idx: usize) -> (r: (i32, i32))
        requires
            idx < MAP_COUNT,
        ensures
            r.0 as int == idx as int % MAP_WIDTH as int,
            r.1 as int == idx as int / MAP_WIDTH as int,
            in_bounds(r.0 as int, r.1 as int),
    {
        ((idx % 80) as i32, (idx / 80) as i32)
    }

    /// The tile at `(x, y)`; a cell outside the grid reads as wall.
    pub fn tile_at(&self, x: i32, y: i32) -> (r: TileType)
        requires
            self.wf(),
        ensures
            r == (if in_bounds(x as int, y as int) { self.tile(x as int, y as int) } else { TileType::Wall }),
    {
        if 0 <= x && x < MAP_WIDTH && 0 <= y && y < MAP_HEIGHT {
            let idx = self.xy_idx(x, y);
            self.tiles[idx]
        } else {
            TileType::Wall
        }
    }

    /// Turns one in-bounds cell into floor.
    fn set_floor(&mut self, x: i32, y: i32)
        requires
            old(self).wf(),
            in_bounds(x as int, y as int),
        ensures
            final(self).wf(),
            final(self).rooms@ == old(self).rooms@,
            final(self).revealed_tiles@ == old(self).revealed_tiles@,
            final(self).visible_tiles@ == old(self).visible_tiles@,
            forall|a: int, b: int| in_bounds(a, b) ==> #[trigger] final(self).tile(a, b)
                == if a == x && b == y { TileType::Floor } else { old(self).tile(a, b) },
    {
        let idx = self.xy_idx(x, y);
        self.tiles.set(idx, TileType::Floor);
    }
    /// Carves the interior of `room` into floor.
    pub fn apply_room_to_map(&mut self, room: &Rect)
        requires
            old(self).wf(),
            room_in_bounds(*room),
        ensures
            final(self).wf(),
            final(self).rooms@ == old(self).rooms@,
            final(self).revealed_tiles@ == old(self).revealed_tiles@,
            final(self).visible_tiles@ == old(self).visible_tiles@,
            forall|a: int, b: int| in_bounds(a, b) ==> #[trigger] final(self).tile(a, b)
                == if in_interior(*room, a, b) { TileType::Floor } else { old(self).tile(a, b) },
            old(self).floor_kept(final(self)),
    {
        let ghost start = *self;
        let mut y: i32 = room.y1 + 1;
        while y <= room.y2
            invariant
                self.wf(),
                room_in_bounds(*room),
                room.y1 + 1 <= y <= room.y2 + 1,
                self.rooms@ == start.rooms@,
                self.revealed_tiles@ == start.revealed_tiles@,
                self.visible_tiles@ == start.visible_tiles@,
                forall|a: int, b: int| in_bounds(a, b) ==> #[trigger] self.tile(a, b)
                    == if in_interior(*room, a, b) && b < y { TileType::Floor } else { start.tile(a, b) },
            decreases room.y2 + 1 - y,
        {
            let mut x: i32 = room.x1 + 1;
            while x <= room.x2
                invariant
                    self.wf(),
                    room_in_bounds(*room),
                    room.y1 + 1 <= y <= room.y2,
                    room.x1 + 1 <= x <= room.x2 + 1,
                    self.rooms@ == start.rooms@,
                    self.revealed_tiles@ == start.revealed_tiles@,
                    self.visible_tiles@ == start.visible_tiles@,
                    forall|a: int, b: int| in_bounds(a, b) ==> #[trigger] self.tile(a, b)
                        == if in_interior(*room, a, b) && (b < y || (b == y && a < x)) {
                            TileType::Floor
                        } else {
                            start.tile(a, b)
                        },
                decreases room.x2 + 1 - x,
            {
                self.set_floor(x, y);
                x = x + 1;
            }
            y = y + 1;
        }
    }

    /// Carves row `y` from `x1` to `x2` (either order) into floor; cells
    /// outside the grid are skipped.
    pub fn apply_horizontal_tunnel(&mut self, x1: i32, x2: i32, y: i32)
        requires
            old(self).wf(),
        ensures
            final(self).wf(),
            final(self).rooms@ == old(self).rooms@,
            final(self).revealed_tiles@ == old(self).revealed_tiles@,
            final(self).visible_tiles@ == old(self).visible_tiles@,
            forall|a: int, b: int| in_bounds(a, b) ==> #[trigger] final(self).tile(a, b)
                == if b == y && min_int(x1 as int, x2 as int) <= a <= max_int(x1 as int, x2 as int) {
                    TileType::Floor
                } else {
                    old(self).tile(a, b)
                },
            old(self).floor_kept(final(self)),
    {
        if y < 0 || y >= MAP_HEIGHT {
            return;
        }
        let ghost start = *self;
        let lo: i32 = if x1 <= x2 { x1 } else { x2 };
        let hi: i32 = if x1 <= x2 { x2 } else { x1 };
        let lo: i32 = if lo < 0 { 0 } else { lo };
        let hi: i32 = if hi > MAP_WIDTH - 1 { MAP_WIDTH - 1 } else { hi };
        let mut x: i32 = lo;
        while x <= hi
            invariant
                self.wf(),
                0 <= y < MAP_HEIGHT,
                0 <= lo <= x,
                hi < MAP_WIDTH,
                lo == max_int(0, min_int(x1 as int, x2 as int)),
                hi == min_int(MAP_WIDTH - 1, max_int(x1 as int, x2 as int)),
                x <= hi + 1 || x == lo,
                self.rooms@ == start.rooms@,
                self.revealed_tiles@ == start.revealed_tiles@,
                self.visible_tiles@ == start.visible_tiles@,
                forall|a: int, b: int| in_bounds(a, b) ==> #[trigger] self.tile(a, b)
                    == if b == y && lo <= a < x { TileType::Floor } else { start.tile(a, b) },
            decreases hi + 1 - x,
        {
            self.set_floor(x, y);
            x = x + 1;
        }
    }

    /// Carves column `x` from `y1` to `y2` (either order) into floor; cells
    /// outside the grid are skipped.
    pub fn apply_vertical_tunnel(&mut self, y1: i32, y2: i32, x: i32)
        requires
            old(self).wf(),
        ensures
            final(self).wf(),
            final(self).rooms@ == old(self).rooms@,
            final(self).revealed_tiles@ == old(self).revealed_tiles@,
            final(self).visible_tiles@ == old(self).visible_tiles@,
            forall|a: int, b: int| in_bounds(a, b) ==> #[trigger] final(self).tile(a, b)
                == if a == x && min_int(y1 as int, y2 as int) <= b <= max_int(y1 as int, y2 as int) {
                    TileType::Floor
                } else {
                    old(self).tile(a, b)
                },
            old(self).floor_kept(final(self)),
    {
        if x < 0 || x >= MAP_WIDTH {
            return;
        }
        let ghost start = *self;
        let lo: i32 = if y1 <= y2 { y1 } else { y2 };
        let hi: i32 = if y1 <= y2 { y2 } else { y1 };
        let lo: i32 = if lo < 0 { 0 } else { lo };
        let hi: i32 = if hi > MAP_HEIGHT - 1 { MAP_HEIGHT - 1 } else { hi };
        let mut y: i32 = lo;
        while y <= hi
            invariant
                self.wf(),
                0 <= x < MAP_WIDTH,
                0 <= lo <= y,
                hi < MAP_HEIGHT,
                lo == max_int(0, min_int(y1 as int, y2 as int)),
                hi == min_int(MAP_HEIGHT - 1, max_int(y1 as int, y2 as int)),
                y <= hi + 1 || y == lo,
                self.rooms@ == start.rooms@,
                self.revealed_tiles@ == start.revealed_tiles@,
                self.visible_tiles@ == start.visible_tiles@,
                forall|a: int, b: int| in_bounds(a, b) ==> #[trigger] self.tile(a, b)
                    == if a == x && lo <= b < y { TileType::Floor } else { start.tile(a, b) },
            decreases hi + 1 - y,
        {
            self.set_floor(x, y);
            y = y + 1;
        }
    }
    /// Whether `(x, y, w, h)` may be placed: inside the grid with a margin
    /// of one cell, and at least two cells across each way.
    pub open spec fn candidate_ok(x: int, y: int, w: int, h: int) -> bool {
        1 <= x && 1 <= y && 2 <= w && 2 <= h && x + w <= MAP_WIDTH - 2 && y + h <= MAP_HEIGHT - 2
    }

    pub open spec fn clear_of_rooms(&self, room: Rect) -> bool {
        forall|k: int| 0 <= k < self.rooms@.len() ==> !room.overlaps(#[trigger] self.rooms@[k])
    }

    /// Tries to place a `w` by `h` room with its top-left corner at `(x, y)`.
    /// It is refused when it does not fit or overlaps a room already placed.
    /// Once accepted, its interior is carved and, unless it is the first room,
    /// an L-shaped corridor joins the previous room's center to its own:
    /// along a row first when `horizontal_first`, else along a column first.
    pub fn try_add_room(&mut self, x: i32, y: i32, w: i32, h: i32, horizontal_first: bool) -> (r: bool)
        requires
            old(self).rooms_valid(),
        ensures
            final(self).rooms_valid(),
            r == (Self::candidate_ok(x as int, y as int, w as int, h as int)
                && old(self).clear_of_rooms(Rect { x1: x, y1: y, x2: (x + w) as i32, y2: (y + h) as i32 })),
            r ==> final(self).rooms@ == old(self).rooms@.push(
                Rect { x1: x, y1: y, x2: (x + w) as i32, y2: (y + h) as i32 }),
            r ==> forall|a: int, b: int|
                in_interior(Rect { x1: x, y1: y, x2: (x + w) as i32, y2: (y + h) as i32 }, a, b)
                ==> #[trigger] final(self).is_floor(a, b),
            !r ==> final(self).rooms@ == old(self).rooms@ && final(self).tiles@ == old(self).tiles@,
            final(self).revealed_tiles@ == old(self).revealed_tiles@,
            final(self).visible_tiles@ == old(self).visible_tiles@,
            old(self).floor_kept(final(self)),
    {
        if !(1 <= x && 1 <= y && 2 <= w && 2 <= h && x <= MAP_WIDTH - 2 - w && y <= MAP_HEIGHT - 2 - h) {
            return false;
        }
        let new_room = Rect::new(x, y, w, h);
        let mut i: usize = 0;
        while i < self.rooms.len()
            invariant
                *self == *old(self),
                self.rooms_valid(),
                i <= self.rooms@.len(),
                Self::candidate_ok(x as int, y as int, w as int, h as int),
                new_room == (Rect { x1: x, y1: y, x2: (x + w) as i32, y2: (y + h) as i32 }),
                forall|k: int| 0 <= k < i ==> !new_room.overlaps(#[trigger] self.rooms@[k]),
            decreases self.rooms@.len() - i,
        {
            if new_room.intersect(&self.rooms[i]) {
                return false;
            }
            i = i + 1;
        }
        let ghost start = *self;
        self.apply_room_to_map(&new_room);
        let ghost carved = *self;
        assert forall|a: int, b: int| in_interior(new_room, a, b) implies #[trigger] carved.is_floor(a, b) by {
            assert(in_bounds(a, b));
            assert(carved.tile(a, b) == TileType::Floor);
        }
        proof {
            lemma_rooms_valid_kept(start, carved);
        }
        let n = self.rooms.len();
        if n > 0 {
            let prev = self.rooms[n - 1];
            let (px, py) = prev.center();
            let (nx, ny) = new_room.center();
            if horizontal_first {
                self.apply_horizontal_tunnel(px, nx, py);
                let ghost mid = *self;
                self.apply_vertical_tunnel(py, ny, nx);
                proof {
                    lemma_floor_kept_trans(carved, mid, *self);
                    assert(self.column_floor(py as int, ny as int, nx as int));
                    assert(self.row_floor(px as int, nx as int, py as int));
                }
            } else {
                self.apply_vertical_tunnel(py, ny, px);
                let ghost mid = *self;
                self.apply_horizontal_tunnel(px, nx, ny);
                proof {
                    lemma_floor_kept_trans(carved, mid, *self);
                    assert(self.column_floor(py as int, ny as int, px as int));
                    assert(self.row_floor(px as int, nx as int, ny as int));
                }
            }
            proof {
                lemma_rooms_valid_kept(carved, *self);
                assert(self.linked(self.center_of(n - 1), new_room.center_spec()));
            }
        }
        let ghost joined = *self;
        proof {
            lemma_floor_kept_trans(start, carved, joined);
            let c = new_room.center_spec();
            assert(carved.is_floor(c.0, c.1));
        }
        self.rooms.push(new_room);
        proof {
            assert forall|a: int, b: int| in_interior(new_room, a, b) implies #[trigger] self.is_floor(a, b) by {
                assert(carved.is_floor(a, b));
                assert(joined.is_floor(a, b));
            }
            let len = self.rooms@.len();
            assert forall|i: int| 0 <= i < len - 1 implies self.rooms@[i] == joined.rooms@[i] by {}
            assert forall|i: int, j: int|
                0 <= i < len && 0 <= j < len && i != j
                implies !(#[trigger] self.rooms@[i]).overlaps(#[trigger] self.rooms@[j]) by {
                if i < len - 1 && j < len - 1 {
                    assert(!joined.rooms@[i].overlaps(joined.rooms@[j]));
                } else if i < len - 1 {
                    assert(!new_room.overlaps(start.rooms@[i]));
                } else {
                    assert(!new_room.overlaps(start.rooms@[j]));
                }
            }
            assert forall|i: int| 0 <= i < len implies
                self.is_floor(#[trigger] self.center_of(i).0, self.center_of(i).1) by {
                if i < len - 1 {
                    assert(joined.is_floor(joined.center_of(i).0, joined.center_of(i).1));
                }
            }
            assert forall|i: int| 0 < i < len implies
                self.linked(self.center_of(i - 1), #[trigger] self.center_of(i)) by {
                assert(joined.floor_kept(self));
                if i < len - 1 {
                    assert(joined.linked(joined.center_of(i - 1), joined.center_of(i)));
                    lemma_linked_kept(joined, *self, joined.center_of(i - 1), joined.center_of(i));
                } else {
                    assert(self.center_of(i) == new_room.center_spec());
                    lemma_linked_kept(joined, *self, joined.center_of(i - 1), new_room.center_spec());
                }
            }
        }
        true
    }

    /// Lays out a fresh map: up to thirty attempts at placing a room of six
    /// to ten cells each way at a random spot, joined as `try_add_room` says.
    /// The first attempt always succeeds, so there is at least one room.
    pub fn new_map_rooms_and_corridors(rng: &mut rltk::RandomNumberGenerator) -> (m: GameMap)
        ensures
            m.rooms_valid(),
            1 <= m.rooms@.len() <= MAX_ROOM_ATTEMPTS,
            forall|i: int| 0 <= i < m.rooms@.len() ==> {
                let r = #[trigger] m.rooms@[i];
                &&& MIN_ROOM_SIZE <= r.x2 - r.x1 <= MAX_ROOM_SIZE
                &&& MIN_ROOM_SIZE <= r.y2 - r.y1 <= MAX_ROOM_SIZE
            },
            forall|i: int| 0 <= i < MAP_COUNT ==> !m.revealed_tiles@[i] && !m.visible_tiles@[i],
    {
        let mut map = GameMap::new_blank();
        let mut attempt: u32 = 0;
        while attempt < MAX_ROOM_ATTEMPTS
            invariant
                map.rooms_valid(),
                attempt > 0 ==> map.rooms@.len() >= 1,
                map.rooms@.len() <= attempt <= MAX_ROOM_ATTEMPTS,
                forall|i: int| 0 <= i < map.rooms@.len() ==> {
                    let r = #[trigger] map.rooms@[i];
                    &&& MIN_ROOM_SIZE <= r.x2 - r.x1 <= MAX_ROOM_SIZE
                    &&& MIN_ROOM_SIZE <= r.y2 - r.y1 <= MAX_ROOM_SIZE
                },
                forall|i: int| 0 <= i < MAP_COUNT ==> !map.revealed_tiles@[i] && !map.visible_tiles@[i],
            decreases MAX_ROOM_ATTEMPTS - attempt,
        {
            let w: i32 = roll_die(rng, MAX_ROOM_SIZE - MIN_ROOM_SIZE + 1) + MIN_ROOM_SIZE - 1;
            let h: i32 = roll_die(rng, MAX_ROOM_SIZE - MIN_ROOM_SIZE + 1) + MIN_ROOM_SIZE - 1;
            let x: i32 = roll_die(rng, MAP_WIDTH - w - 2);
            let y: i32 = roll_die(rng, MAP_HEIGHT - h - 2);
            let horizontal_first = roll_die(rng, 2) == 1;
            let ghost before = map.rooms@.len();
            let ghost prev = map.rooms@;
            let placed = map.try_add_room(x, y, w, h, horizontal_first);
            assert(before == 0 ==> placed);
            assert forall|i: int| 0 <= i < map.rooms@.len() implies {
                let r = #[trigger] map.rooms@[i];
                &&& MIN_ROOM_SIZE <= r.x2 - r.x1 <= MAX_ROOM_SIZE
                &&& MIN_ROOM_SIZE <= r.y2 - r.y1 <= MAX_ROOM_SIZE
            } by {
                if i < prev.len() {
                    assert(map.rooms@[i] == prev[i]);
                }
            }
            attempt = attempt + 1;
        }
        map
    }
}

pub const MAX_ROOM_ATTEMPTS: u32 = 30;
pub const MIN_ROOM_SIZE: i32 = 6;
pub const MAX_ROOM_SIZE: i32 = 10;

/// Floor that survives two steps survives both together.
proof fn lemma_floor_kept_trans(a: GameMap, b: GameMap, c: GameMap)
    requires
        a.floor_kept(&b),
        b.floor_kept(&c),
    ensures
        a.floor_kept(&c),
{
}

/// An L-shaped floor path stays one when no floor is lost.
proof fn lemma_linked_kept(m1: GameMap, m2: GameMap, p: (int, int), q: (int, int))
    requires
        m1.floor_kept(&m2),
        m1.linked(p, q),
    ensures
        m2.linked(p, q),
{
    assert forall|x: int, y: int| m1.is_floor(x, y) implies #[trigger] m2.is_floor(x, y) by {}
    if m1.row_floor(p.0, q.0, p.1) && m1.column_floor(p.1, q.1, q.0) {
        assert forall|x: int| min_int(p.0, q.0) <= x <= max_int(p.0, q.0)
            implies #[trigger] m2.is_floor(x, p.1) by {
            assert(m1.is_floor(x, p.1));
        }
        assert forall|y: int| min_int(p.1, q.1) <= y <= max_int(p.1, q.1)
            implies #[trigger] m2.is_floor(q.0, y) by {
            assert(m1.is_floor(q.0, y));
        }
    } else {
        assert forall|y: int| min_int(p.1, q.1) <= y <= max_int(p.1, q.1)
            implies #[trigger] m2.is_floor(p.0, y) by {
            assert(m1.is_floor(p.0, y));
        }
        assert forall|x: int| min_int(p.0, q.0) <= x <= max_int(p.0, q.0)
            implies #[trigger] m2.is_floor(x, q.1) by {
            assert(m1.is_floor(x, q.1));
        }
    }
}

/// Carving more floor keeps the rooms' invariant.
proof fn lemma_rooms_valid_kept(m1: GameMap, m2: GameMap)
    requires
        m1.rooms_valid(),
        m2.wf(),
        m2.rooms@ == m1.rooms@,
        m1.floor_kept(&m2),
    ensures
        m2.rooms_valid(),
{
    assert forall|i: int| 0 < i < m2.rooms@.len() implies
        m2.linked(m2.center_of(i - 1), #[trigger] m2.center_of(i)) by {
        lemma_linked_kept(m1, m2, m1.center_of(i - 1), m1.center_of(i));
    }
    assert forall|i: int| 0 <= i < m2.rooms@.len() implies
        m2.is_floor(#[trigger] m2.center_of(i).0, m2.center_of(i).1) by {
        assert(m1.is_floor(m1.center_of(i).0, m1.center_of(i).1));
    }
}

/// Every generated map keeps its rooms inside the grid and apart from each
/// other: no two accepted rooms share a cell.
pub proof fn lemma_rooms_in_bounds_and_apart(m: &GameMap)
    requires
        m.rooms_valid(),
    ensures
        forall|i: int| 0 <= i < m.rooms@.len() ==> {
            let r = #[trigger] m.rooms@[i];
            0 <= r.x1 <= r.x2 < MAP_WIDTH && 0 <= r.y1 <= r.y2 < MAP_HEIGHT
        },
        forall|i: int, j: int|
            0 <= i < j < m.rooms@.len() ==> !(#[trigger] m.rooms@[i]).overlaps(#[trigger] m.rooms@[j]),
{
}

/// In every generated map each room's center is floor, and each room is
/// joined to room 0 by floor: an L-shaped path leads from every room to the
/// one placed before it.
pub proof fn lemma_rooms_connected(m: &GameMap)
    requires
        m.rooms_valid(),
    ensures
        forall|i: int| 0 <= i < m.rooms@.len() ==>
            m.is_floor(#[trigger] m.center_of(i).0, m.center_of(i).1),
        forall|i: nat| i < m.rooms@.len() ==> #[trigger] m.chained_to_first(i),
{
    assert forall|i: nat| i < m.rooms@.len() implies #[trigger] m.chained_to_first(i) by {
        lemma_chain(m, i);
    }
}

proof fn lemma_chain(m: &GameMap, i: nat)
    requires
        m.rooms_valid(),
        i < m.rooms@.len(),
    ensures
        m.chained_to_first(i),
    decreases i,
{
    if i > 0 {
        lemma_chain(m, (i - 1) as nat);
        assert(m.linked(m.center_of(i - 1), m.center_of(i as int)));
    }
}

/// The index of an in-bounds cell maps back to that cell.
pub proof fn lemma_xy_idx_round_trip(x: int, y: int)
    requires
        in_bounds(x, y),
    ensures
        0 <= idx_of(x, y) < MAP_COUNT,
        idx_of(x, y) % MAP_WIDTH as int == x,
        idx_of(x, y) / MAP_WIDTH as int == y,
{
    assert((y * 80 + x) % 80 == x && (y * 80 + x) / 80 == y) by (nonlinear_arith)
        requires 0 <= x < 80, 0 <= y < 50;
}

/// `p` and `q` are side by side: one step along a row or a column.
pub open spec fn adjacent(p: (int, int), q: (int, int)) -> bool {
    (p.0 == q.0 && (p.1 - q.1 == 1 || q.1 - p.1 == 1)) || (p.1 == q.1 && (p.0 - q.0 == 1 || q.0 - p.0 == 1))
}

impl GameMap {
    /// `path` is a walk over floor cells, each step to a side neighbour.
    pub open spec fn floor_walk(&self, path: Seq<(int, int)>) -> bool {
        &&& path.len() >= 1
        &&& forall|k: int| 0 <= k < path.len() ==> self.is_floor((#[trigger] path[k]).0, path[k].1)
        &&& forall|k: int| 0 <= k < path.len() - 1 ==> adjacent(#[trigger] path[k], path[k + 1])
    }

    /// A floor walk leads from `a` to `b`.
    pub open spec fn floor_connected(&self, a: (int, int), b: (int, int)) -> bool {
        exists|path: Seq<(int, int)>| #[trigger] self.floor_walk(path) && path[0] == a && path.last() == b
    }
}

proof fn lemma_row_walk(m: &GameMap, xa: int, xb: int, y: int)
    requires
        m.row_floor(xa, xb, y),
    ensures
        m.floor_connected((xa, y), (xb, y)),
{
    let path = if xa <= xb {
        Seq::new((xb - xa + 1) as nat, |k: int| (xa + k, y))
    } else {
        Seq::new((xa - xb + 1) as nat, |k: int| (xa - k, y))
    };
    assert forall|k: int| 0 <= k < path.len() implies m.is_floor((#[trigger] path[k]).0, path[k].1) by {
        assert(min_int(xa, xb) <= path[k].0 <= max_int(xa, xb));
    }
    assert forall|k: int| 0 <= k < path.len() - 1 implies adjacent(#[trigger] path[k], path[k + 1]) by {}
    assert(m.floor_walk(path));
}

proof fn lemma_column_walk(m: &GameMap, ya: int, yb: int, x: int)
    requires
        m.column_floor(ya, yb, x),
    ensures
        m.floor_connected((x, ya), (x, yb)),
{
    let path = if ya <= yb {
        Seq::new((yb - ya + 1) as nat, |k: int| (x, ya + k))
    } else {
        Seq::new((ya - yb + 1) as nat, |k: int| (x, ya - k))
    };
    assert forall|k: int| 0 <= k < path.len() implies m.is_floor((#[trigger] path[k]).0, path[k].1) by {
        assert(min_int(ya, yb) <= path[k].1 <= max_int(ya, yb));
    }
    assert forall|k: int| 0 <= k < path.len() - 1 implies adjacent(#[trigger] path[k], path[k + 1]) by {}
    assert(m.floor_walk(path));
}

proof fn lemma_walk_join(m: &GameMap, a: (int, int), b: (int, int), c: (int, int))
    requires
        m.floor_connected(a, b),
        m.floor_connected(b, c),
    ensures
        m.floor_connected(a, c),
{
    let p = choose|path: Seq<(int, int)>| #[trigger] m.floor_walk(path) && path[0] == a && path.last() == b;
    let q = choose|path: Seq<(int, int)>| #[trigger] m.floor_walk(path) && path[0] == b && path.last() == c;
    let r = p + q.drop_first();
    assert forall|k: int| 0 <= k < r.len() implies m.is_floor((#[trigger] r[k]).0, r[k].1) by {
        if k >= p.len() {
            assert(r[k] == q[k - p.len() + 1]);
        }
    }
    assert forall|k: int| 0 <= k < r.len() - 1 implies adjacent(#[trigger] r[k], r[k + 1]) by {
        if k < p.len() - 1 {
            assert(r[k] == p[k] && r[k + 1] == p[k + 1]);
        } else if k == p.len() - 1 {
            assert(r[k] == q[0] && r[k + 1] == q[1]);
        } else {
            assert(r[k] == q[k - p.len() + 1] && r[k + 1] == q[k - p.len() + 2]);
        }
    }
    if q.len() == 1 {
        assert(r.last() == p.last());
    } else {
        assert(r.last() == q.last());
    }
    assert(m.floor_walk(r));
}

proof fn lemma_linked_walk(m: &GameMap, a: (int, int), b: (int, int))
    requires
        m.linked(a, b),
    ensures
        m.floor_connected(a, b),
{
    if m.row_floor(a.0, b.0, a.1) && m.column_floor(a.1, b.1, b.0) {
        lemma_row_walk(m, a.0, b.0, a.1);
        lemma_column_walk(m, a.1, b.1, b.0);
        lemma_walk_join(m, a, (b.0, a.1), b);
    } else {
        lemma_column_walk(m, a.1, b.1, a.0);
        lemma_row_walk(m, a.0, b.0, b.1);
        lemma_walk_join(m, a, (a.0, b.1), b);
    }
}

proof fn lemma_walk_to_first(m: &GameMap, i: int)
    requires
        m.rooms_valid(),
        0 <= i < m.rooms@.len(),
    ensures
        m.floor_connected(m.center_of(0), m.center_of(i)),
    decreases i,
{
    if i == 0 {
        let c = m.center_of(0);
        let path = seq![c];
        assert(m.is_floor(c.0, c.1));
        assert(m.floor_walk(path));
    } else {
        lemma_walk_to_first(m, i - 1);
        lemma_linked_walk(m, m.center_of(i - 1), m.center_of(i));
        lemma_walk_join(m, m.center_of(0), m.center_of(i - 1), m.center_of(i));
    }
}

/// In every generated map a walk over floor cells, each step to a side
/// neighbour, leads from room 0's center to every room's center.
pub proof fn lemma_rooms_reachable(m: &GameMap)
    requires
        m.rooms_valid(),
    ensures
        forall|i: int| 0 <= i < m.rooms@.len() ==> m.floor_connected(m.center_of(0), #[trigger] m.center_of(i)),
{
    assert forall|i: int| 0 <= i < m.rooms@.len() implies m.floor_connected(m.center_of(0), #[trigger] m.center_of(i)) by {
        lemma_walk_to_first(m, i);
    }
}

} // verus!
