use vstd::prelude::*;
use crate::components::{Point, Position, Viewshed};
use crate::ecs::{Entity, World};
use crate::map::{GameMap, TileType, in_bounds, idx_of, MAP_COUNT, MAP_WIDTH, MAP_HEIGHT};
use crate::visibility::{field_of_view, is_field_of_view, sees};

verus! {

/// Whether the game waits for a key or runs its systems this frame.
#[derive(Clone, Copy, Debug, PartialEq, Eq, Structural)]
pub enum RunState {
    Paused,
    Running,
}

/// A key press as the game reads it.
#[derive(Clone, Copy, Debug, PartialEq, Eq, Structural)]
pub enum Key {
    Left,
    Right,
    Up,
    Down,
    Other,
}

/// The unit step that a key asks for, if it is a direction.
pub open spec fn key_delta(key: Key) -> Option<(int, int)> {
    match key {
        Key::Left => Some((-1, 0)),
        Key::Right => Some((1, 0)),
        Key::Up => Some((0, -1)),
        Key::Down => Some((0, 1)),
        Key::Other => None,
    }
}

pub open spec fn clamp(v: int, lo: int, hi: int) -> int {
    if v < lo { lo } else if v > hi { hi } else { v }
}

/// Where a step of `(dx, dy)` from `p` lands once held inside the grid.
pub open spec fn step_target(p: Position, dx: int, dy: int) -> Position {
    Position {
        x: clamp(p.x + dx, 0, MAP_WIDTH - 1) as i32,
        y: clamp(p.y + dy, 0, MAP_HEIGHT - 1) as i32,
    }
}

/// The same viewshed, marked for recomputation.
pub open spec fn dirtied(v: Option<Viewshed>) -> Option<Viewshed> {
    match v {
        Some(v) => Some(Viewshed { dirty: true, ..v }),
        None => None,
    }
}

/// The first entity from `i` on that is tagged as the player.
pub open spec fn first_player_from(players: Seq<Option<crate::components::Player>>, i: int) -> Option<int>
    decreases players.len() - i,
{
    if i < 0 || i >= players.len() {
        None
    } else if players[i] is Some {
        Some(i)
    } else {
        first_player_from(players, i + 1)
    }
}

/// `tiles` holds `p`.
pub open spec fn view_has(tiles: Seq<Point>, p: Point) -> bool {
    tiles.contains(p)
}

/// The named monsters, in order, among the first `n` entities whose viewshed
/// holds the player's tracked position; none while no entity is the player.
pub open spec fn alerts_upto(w: &World, n: nat) -> Seq<Entity>
    decreases n,
{
    if n == 0 {
        Seq::empty()
    } else {
        let prev = alerts_upto(w, (n - 1) as nat);
        let i = (n - 1) as int;
        if first_player_from(w.players@, 0) is Some && w.player_pos is Some
            && w.monsters@[i] is Some && w.names@[i] is Some && w.viewsheds@[i] is Some
            && view_has(w.viewsheds@[i]->Some_0.visible_tiles@, w.player_pos->Some_0) {
            prev.push(Entity { id: i as usize })
        } else {
            prev
        }
    }
}

impl GameMap {
    pub open spec fn visible_at(&self, x: int, y: int) -> bool {
        self.visible_tiles@[idx_of(x, y)]
    }

    pub open spec fn revealed_at(&self, x: int, y: int) -> bool {
        self.revealed_tiles@[idx_of(x, y)]
    }

    /// No revealed cell of `self` is hidden again in `other`.
    pub open spec fn revealed_kept(&self, other: &GameMap) -> bool {
        forall|x: int, y: int| in_bounds(x, y) && #[trigger] self.revealed_at(x, y) ==> other.revealed_at(x, y)
    }

    /// How cell `idx` is drawn: not at all unless revealed, else its tile,
    /// bright when the player sees it now and dim otherwise.
    pub fn tile_view(&self, idx: usize) -> (r: Option<(TileType, bool)>)
        requires
            self.wf(),
            idx < MAP_COUNT,
        ensures
            r == if self.revealed_tiles@[idx as int] {
                Some((self.tiles@[idx as int], self.visible_tiles@[idx as int]))
            } else {
                None
            },
    {
        if self.revealed_tiles[idx] {
            Some((self.tiles[idx], self.visible_tiles[idx]))
        } else {
            None
        }
    }

    /// Makes `tiles` the cells the player sees now, and adds them to those
    /// ever seen.
    pub fn reveal_view(&mut self, tiles: &Vec<Point>)
        requires
            old(self).wf(),
            forall|i: int| 0 <= i < tiles@.len() ==> in_bounds((#[trigger] tiles@[i]).x as int, tiles@[i].y as int),
        ensures
            final(self).wf(),
            final(self).tiles@ == old(self).tiles@,
            final(self).rooms@ == old(self).rooms@,
            forall|x: int, y: int| in_bounds(x, y) ==>
                (#[trigger] final(self).visible_at(x, y) <==> tiles@.contains(Point { x: x as i32, y: y as i32 })),
            forall|x: int, y: int| in_bounds(x, y) ==>
                (#[trigger] final(self).revealed_at(x, y) <==> (old(self).revealed_at(x, y)
                    || tiles@.contains(Point { x: x as i32, y: y as i32 }))),
    {
        let ghost start = *self;
        let mut i: usize = 0;
        while i < MAP_COUNT
            invariant
                self.wf(),
                i <= MAP_COUNT,
                self.tiles@ == start.tiles@,
                self.rooms@ == start.rooms@,
                self.revealed_tiles@ == start.revealed_tiles@,
                forall|k: int| 0 <= k < i ==> !self.visible_tiles@[k],
            decreases MAP_COUNT - i,
        {
            self.visible_tiles.set(i, false);
            i = i + 1;
        }
        let mut j: usize = 0;
        while j < tiles.len()
            invariant
                self.wf(),
                j <= tiles@.len(),
                self.tiles@ == start.tiles@,
                self.rooms@ == start.rooms@,
                forall|i: int| 0 <= i < tiles@.len() ==> in_bounds((#[trigger] tiles@[i]).x as int, tiles@[i].y as int),
                forall|x: int, y: int| in_bounds(x, y) ==>
                    (#[trigger] self.visible_at(x, y) <==> exists|m: int| 0 <= m < j
                        && #[trigger] tiles@[m] == Point { x: x as i32, y: y as i32 }),
                forall|x: int, y: int| in_bounds(x, y) ==>
                    (#[trigger] self.revealed_at(x, y) <==> (start.revealed_at(x, y) || exists|m: int| 0 <= m < j
                        && #[trigger] tiles@[m] == Point { x: x as i32, y: y as i32 })),
            decreases tiles@.len() - j,
        {
            let t = tiles[j];
            let idx = self.xy_idx(t.x, t.y);
            let ghost before = *self;
            self.visible_tiles.set(idx, true);
            self.revealed_tiles.set(idx, true);
            proof {
                assert forall|x: int, y: int|
                    #![trigger self.visible_at(x, y)]
                    #![trigger self.revealed_at(x, y)]
                    in_bounds(x, y) implies {
                    let listed = exists|m: int| 0 <= m < j + 1
                        && #[trigger] tiles@[m] == Point { x: x as i32, y: y as i32 };
                    &&& (self.visible_at(x, y) <==> listed)
                    &&& (self.revealed_at(x, y) <==> (start.revealed_at(x, y) || listed))
                } by {
                    if x == t.x && y == t.y {
                        assert(tiles@[j as int] == Point { x: x as i32, y: y as i32 });
                    } else {
                        assert(idx_of(x, y) != idx);
                        assert(self.visible_at(x, y) == before.visible_at(x, y));
                        assert(self.revealed_at(x, y) == before.revealed_at(x, y));
                        assert(tiles@[j as int] != Point { x: x as i32, y: y as i32 });
                        if exists|m: int| 0 <= m < j + 1 && #[trigger] tiles@[m] == (Point { x: x as i32, y: y as i32 }) {
                            let m = choose|m: int| 0 <= m < j + 1 && #[trigger] tiles@[m] == Point { x: x as i32, y: y as i32 };
                            assert(m < j);
                        }
                    }
                }
            }
            j = j + 1;
        }
    }
}

/// Whether `tiles` holds `p`.
pub fn view_contains(tiles: &Vec<Point>, p: Point) -> (r: bool)
    ensures
        r == view_has(tiles@, p),
{
    let mut i: usize = 0;
    while i < tiles.len()
        invariant
            i <= tiles@.len(),
            forall|k: int| 0 <= k < i ==> tiles@[k] != p,
        decreases tiles@.len() - i,
    {
        if tiles[i] == p {
            assert(tiles@[i as int] == p);
            return true;
        }
        i = i + 1;
    }
    false
}

proof fn lemma_first_player_bounds(players: Seq<Option<crate::components::Player>>, i: int)
    ensures
        match first_player_from(players, i) {
            Some(j) => 0 <= i <= j < players.len() && players[j] is Some,
            None => true,
        },
    decreases players.len() - i,
{
    if 0 <= i < players.len() && players[i] is None {
        lemma_first_player_bounds(players, i + 1);
    }
}

impl World {
    /// Entity `i` has a position and a viewshed marked for recomputation.
    pub open spec fn needs_view(&self, i: int) -> bool {
        &&& self.positions@[i] is Some
        &&& self.viewsheds@[i] is Some
        &&& self.viewsheds@[i]->Some_0.dirty
    }

    /// Entity `i`, which `needs_view` in `self`, holds in `other` the view
    /// that its position and range give on `self`'s grid, no longer dirty.
    pub open spec fn view_recomputed(&self, other: &World, i: int) -> bool {
        let p = self.positions@[i]->Some_0;
        let v = self.viewsheds@[i]->Some_0;
        &&& other.viewsheds@[i] is Some
        &&& other.viewsheds@[i]->Some_0.range == v.range
        &&& !other.viewsheds@[i]->Some_0.dirty
        &&& other.viewsheds@[i]->Some_0.visible_tiles@.no_duplicates()
        &&& is_field_of_view(other.viewsheds@[i]->Some_0.visible_tiles@, self.map.tiles@,
            p.x as int, p.y as int, v.range as int)
    }

    /// The player's view at entity `i` is revealed in `other`'s map.
    pub open spec fn view_revealed(&self, other: &World, i: int) -> bool {
        let p = self.positions@[i]->Some_0;
        let v = self.viewsheds@[i]->Some_0;
        forall|x: int, y: int| #[trigger] sees(self.map.tiles@, p.x as int, p.y as int, v.range as int, x, y)
            ==> other.map.revealed_at(x, y)
    }

    /// Entity `i` is a player whose viewshed needs recomputing.
    pub open spec fn player_needs_view(&self, i: int) -> bool {
        self.needs_view(i) && self.players@[i] is Some
    }

    /// Some player among the first `n` entities whose viewshed needs
    /// recomputing sees `(x, y)` from where it stands.
    pub open spec fn seen_by_player(&self, x: int, y: int, n: int) -> bool {
        exists|j: int| 0 <= j < n && #[trigger] self.player_needs_view(j)
            && sees(self.map.tiles@, self.positions@[j]->Some_0.x as int, self.positions@[j]->Some_0.y as int,
                self.viewsheds@[j]->Some_0.range as int, x, y)
    }

    /// Entity `i` is the last such player among the first `n` entities.
    pub open spec fn last_player_view(&self, i: int, n: int) -> bool {
        self.player_needs_view(i) && forall|k: int| i < k < n ==> !#[trigger] self.player_needs_view(k)
    }

    /// The cells `other`'s map marks as visible now are exactly those that
    /// entity `i` sees on `self`'s grid.
    pub open spec fn view_shown(&self, other: &World, i: int) -> bool {
        let p = self.positions@[i]->Some_0;
        let v = self.viewsheds@[i]->Some_0;
        forall|x: int, y: int| in_bounds(x, y) ==> (#[trigger] other.map.visible_at(x, y)
            <==> sees(self.map.tiles@, p.x as int, p.y as int, v.range as int, x, y))
    }

    /// Recomputes what each entity with a dirty viewshed sees from where it
    /// stands, and clears the mark. For the player, the cells seen become
    /// the map's visible cells and are added to the revealed ones, which
    /// are never hidden again.
    pub fn visibility_system(&mut self)
        requires
            old(self).wf(),
        ensures
            final(self).wf(),
            final(self).positions@ == old(self).positions@,
            final(self).renderables@ == old(self).renderables@,
            final(self).players@ == old(self).players@,
            final(self).monsters@ == old(self).monsters@,
            final(self).names@ == old(self).names@,
            final(self).pending_deletes@ == old(self).pending_deletes@,
            final(self).player_pos == old(self).player_pos,
            final(self).map.tiles@ == old(self).map.tiles@,
            final(self).map.rooms@ == old(self).map.rooms@,
            old(self).map.revealed_kept(&final(self).map),
            forall|i: int| 0 <= i < old(self).count() ==>
                if #[trigger] old(self).needs_view(i) {
                    old(self).view_recomputed(final(self), i)
                } else {
                    final(self).viewsheds@[i] == old(self).viewsheds@[i]
                },
            forall|i: int| 0 <= i < old(self).count() && #[trigger] old(self).needs_view(i)
                && old(self).players@[i] is Some ==> old(self).view_revealed(final(self), i),
            forall|i: int| 0 <= i < old(self).count() && #[trigger] old(self).last_player_view(i, old(self).count() as int)
                ==> old(self).view_shown(final(self), i),
            (forall|i: int| 0 <= i < old(self).count() ==> !#[trigger] old(self).player_needs_view(i))
                ==> final(self).map.visible_tiles@ == old(self).map.visible_tiles@,
            forall|x: int, y: int| in_bounds(x, y) && #[trigger] final(self).map.revealed_at(x, y)
                ==> old(self).map.revealed_at(x, y) || old(self).seen_by_player(x, y, old(self).count() as int),
    {
        let ghost start = *self;
        let mut i: usize = 0;
        while i < self.positions.len()
            invariant
                self.wf(),
                i <= self.count(),
                self.count() == start.count(),
                self.positions@ == start.positions@,
                self.renderables@ == start.renderables@,
                self.players@ == start.players@,
                self.monsters@ == start.monsters@,
                self.names@ == start.names@,
                self.pending_deletes@ == start.pending_deletes@,
                self.player_pos == start.player_pos,
                self.map.tiles@ == start.map.tiles@,
                self.map.rooms@ == start.map.rooms@,
                start.map.revealed_kept(&self.map),
                forall|j: int| 0 <= j < self.count() && !(j < i && start.needs_view(j))
                    ==> #[trigger] self.viewsheds@[j] == start.viewsheds@[j],
                forall|j: int| 0 <= j < i && #[trigger] start.needs_view(j) ==> start.view_recomputed(self, j),
                forall|j: int| 0 <= j < i && #[trigger] start.needs_view(j)
                    && start.players@[j] is Some ==> start.view_revealed(self, j),
                forall|j: int| 0 <= j < i && #[trigger] start.last_player_view(j, i as int) ==> start.view_shown(self, j),
                (forall|j: int| 0 <= j < i ==> !#[trigger] start.player_needs_view(j))
                    ==> self.map.visible_tiles@ == start.map.visible_tiles@,
                forall|x: int, y: int| in_bounds(x, y) && #[trigger] self.map.revealed_at(x, y)
                    ==> start.map.revealed_at(x, y) || start.seen_by_player(x, y, i as int),
            decreases self.count() - i,
        {
            let ghost at_top = *self;
            let mut job: Option<(i32, i32, i32)> = None;
            if let Some(p) = &self.positions[i] {
                if let Some(v) = &self.viewsheds[i] {
                    if v.dirty {
                        job = Some((p.x, p.y, v.range));
                    }
                }
            }
            assert(job is Some <==> start.needs_view(i as int));
            if let Some((px, py, range)) = job {
                let tiles = field_of_view(&self.map, px, py, range);
                let ghost before = *self;
                if self.players[i].is_some() {
                    self.map.reveal_view(&tiles);
                    proof {
                        assert forall|x: int, y: int| in_bounds(x, y) && #[trigger] start.map.revealed_at(x, y)
                            implies self.map.revealed_at(x, y) by {
                            assert(before.map.revealed_at(x, y));
                        }
                        assert forall|j: int| 0 <= j < i && #[trigger] start.needs_view(j)
                            && start.players@[j] is Some implies start.view_revealed(self, j) by {
                            let p = start.positions@[j]->Some_0;
                            let v = start.viewsheds@[j]->Some_0;
                            assert forall|x: int, y: int|
                                #[trigger] sees(start.map.tiles@, p.x as int, p.y as int, v.range as int, x, y)
                                implies self.map.revealed_at(x, y) by {
                                assert(before.map.revealed_at(x, y));
                            }
                        }
                        assert forall|x: int, y: int|
                            #[trigger] sees(start.map.tiles@, px as int, py as int, range as int, x, y)
                            implies self.map.revealed_at(x, y) by {
                            assert(tiles@.contains(Point { x: x as i32, y: y as i32 }));
                        }
                        assert forall|x: int, y: int| in_bounds(x, y) implies (#[trigger] self.map.visible_at(x, y)
                            <==> sees(start.map.tiles@, px as int, py as int, range as int, x, y)) by {
                            if self.map.visible_at(x, y) {
                                let m = choose|m: int| 0 <= m < tiles@.len()
                                    && tiles@[m] == (Point { x: x as i32, y: y as i32 });
                                assert(sees(start.map.tiles@, px as int, py as int, range as int,
                                    tiles@[m].x as int, tiles@[m].y as int));
                            }
                            if sees(start.map.tiles@, px as int, py as int, range as int, x, y) {
                                assert(tiles@.contains(Point { x: x as i32, y: y as i32 }));
                            }
                        }
                        assert(start.player_needs_view(i as int));
                        assert forall|x: int, y: int| in_bounds(x, y) && #[trigger] self.map.revealed_at(x, y)
                            implies start.map.revealed_at(x, y) || start.seen_by_player(x, y, i + 1) by {
                            if before.map.revealed_at(x, y) {
                                if start.seen_by_player(x, y, i as int) {
                                    let j = choose|j: int| 0 <= j < i && #[trigger] start.player_needs_view(j)
                                        && sees(start.map.tiles@, start.positions@[j]->Some_0.x as int,
                                            start.positions@[j]->Some_0.y as int,
                                            start.viewsheds@[j]->Some_0.range as int, x, y);
                                    assert(0 <= j < i + 1);
                                }
                            } else {
                                let m = choose|m: int| 0 <= m < tiles@.len()
                                    && tiles@[m] == (Point { x: x as i32, y: y as i32 });
                                assert(sees(start.map.tiles@, px as int, py as int, range as int,
                                    tiles@[m].x as int, tiles@[m].y as int));
                                assert(sees(start.map.tiles@, px as int, py as int, range as int, x, y));
                            }
                        }
                    }
                }
                self.viewsheds.set(i, Some(Viewshed { visible_tiles: tiles, range, dirty: false }));
                proof {
                    let p = start.positions@[i as int]->Some_0;
                    let v = start.viewsheds@[i as int]->Some_0;
                    assert(px == p.x && py == p.y && range == v.range);
                    assert(self.viewsheds@[i as int]->Some_0.visible_tiles@ == tiles@);
                    assert(start.view_recomputed(self, i as int));
                }
            }
            proof {
                assert forall|j: int| 0 <= j < self.count() && !(j < i + 1 && start.needs_view(j))
                    implies #[trigger] self.viewsheds@[j] == start.viewsheds@[j] by {
                    assert(self.viewsheds@[j] == at_top.viewsheds@[j]);
                }
                assert forall|j: int| 0 <= j < i + 1 && #[trigger] start.needs_view(j)
                    implies start.view_recomputed(self, j) by {
                    if j != i {
                        assert(self.viewsheds@[j] == at_top.viewsheds@[j]);
                    }
                }
                if start.player_needs_view(i as int) {
                    assert forall|j: int| 0 <= j < i + 1 && #[trigger] start.last_player_view(j, i + 1)
                        implies start.view_shown(self, j) by {
                        if j < i {
                            assert(!start.last_player_view(j, i + 1));
                        }
                    }
                } else {
                    assert(self.map.revealed_tiles@ == at_top.map.revealed_tiles@);
                    assert forall|x: int, y: int| in_bounds(x, y) && #[trigger] self.map.revealed_at(x, y)
                        implies start.map.revealed_at(x, y) || start.seen_by_player(x, y, i + 1) by {
                        assert(at_top.map.revealed_at(x, y));
                        if start.seen_by_player(x, y, i as int) {
                            let j = choose|j: int| 0 <= j < i && #[trigger] start.player_needs_view(j)
                                && sees(start.map.tiles@, start.positions@[j]->Some_0.x as int,
                                    start.positions@[j]->Some_0.y as int,
                                    start.viewsheds@[j]->Some_0.range as int, x, y);
                            assert(0 <= j < i + 1);
                        }
                    }
                    assert(self.map.visible_tiles@ == at_top.map.visible_tiles@);
                    assert forall|j: int| 0 <= j < i + 1 && #[trigger] start.last_player_view(j, i + 1)
                        implies start.view_shown(self, j) by {
                        assert(start.last_player_view(j, i as int));
                        assert(start.view_shown(&at_top, j));
                        assert forall|x: int, y: int| in_bounds(x, y) implies
                            self.map.visible_at(x, y) == #[trigger] at_top.map.visible_at(x, y) by {}
                    }
                }
            }
            i = i + 1;
        }
    }

    /// The first entity tagged as the player, if any.
    pub fn player_entity(&self) -> (r: Option<Entity>)
        requires
            self.wf(),
        ensures
            match first_player_from(self.players@, 0) {
                Some(i) => r == Some(Entity { id: i as usize }),
                None => r is None,
            },
    {
        let mut i: usize = 0;
        while i < self.players.len()
            invariant
                i <= self.players@.len(),
                first_player_from(self.players@, 0) == first_player_from(self.players@, i as int),
            decreases self.players@.len() - i,
        {
            if self.players[i].is_some() {
                return Some(Entity { id: i });
            }
            i = i + 1;
        }
        None
    }

    /// Which entity the player's step of `(dx, dy)` moves, and where to:
    /// the first player entity with a position, when the cell it would land
    /// on, held inside the grid, is floor.
    pub open spec fn move_outcome(&self, dx: int, dy: int) -> Option<(int, Position)> {
        match first_player_from(self.players@, 0) {
            Some(e) => if self.positions@[e] is Some
                && self.map.is_floor(step_target(self.positions@[e]->Some_0, dx, dy).x as int,
                    step_target(self.positions@[e]->Some_0, dx, dy).y as int) {
                Some((e, step_target(self.positions@[e]->Some_0, dx, dy)))
            } else {
                None
            },
            None => None,
        }
    }

    /// Moves the player by `(dx, dy)`, held inside the grid; a step onto a
    /// wall is cancelled. A step taken marks the player's viewshed dirty and
    /// updates the tracked player position.
    pub fn try_move_player(&mut self, dx: i32, dy: i32)
        requires
            old(self).wf(),
        ensures
            final(self).wf(),
            final(self).renderables@ == old(self).renderables@,
            final(self).players@ == old(self).players@,
            final(self).monsters@ == old(self).monsters@,
            final(self).names@ == old(self).names@,
            final(self).pending_deletes@ == old(self).pending_deletes@,
            final(self).map == old(self).map,
            match old(self).move_outcome(dx as int, dy as int) {
                Some((e, p)) => {
                    &&& final(self).positions@ == old(self).positions@.update(e, Some(p))
                    &&& final(self).viewsheds@ == old(self).viewsheds@.update(e, dirtied(old(self).viewsheds@[e]))
                    &&& final(self).player_pos == Some(Point { x: p.x, y: p.y })
                },
                None => {
                    &&& final(self).positions@ == old(self).positions@
                    &&& final(self).viewsheds@ == old(self).viewsheds@
                    &&& final(self).player_pos == old(self).player_pos
                },
            },
    {
        if self.players.len() == 0 {
            return;
        }
        proof {
            lemma_first_player_bounds(self.players@, 0);
        }
        let e = match self.player_entity() {
            Some(e) => e,
            None => return,
        };
        assert(first_player_from(self.players@, 0) == Some(e.id as int));
        let pos = match &self.positions[e.id] {
            Some(p) => *p,
            None => return,
        };
        let tx: i64 = pos.x as i64 + dx as i64;
        let ty: i64 = pos.y as i64 + dy as i64;
        let nx: i32 = if tx < 0 { 0 } else if tx > (MAP_WIDTH - 1) as i64 { MAP_WIDTH - 1 } else { tx as i32 };
        let ny: i32 = if ty < 0 { 0 } else if ty > (MAP_HEIGHT - 1) as i64 { MAP_HEIGHT - 1 } else { ty as i32 };
        let dest = Position { x: nx, y: ny };
        assert(dest == step_target(pos, dx as int, dy as int));
        if self.map.tile_at(nx, ny) == TileType::Floor {
            self.positions.set(e.id, Some(dest));
            if let Some(v) = &mut self.viewsheds[e.id] {
                v.dirty = true;
            }
            self.player_pos = Some(Point { x: nx, y: ny });
        }
    }
}

impl World {
    /// The named monsters, in order of creation, whose viewshed holds the
    /// player's tracked position; none when no entity is the player or that
    /// position is not known yet.
    pub fn monster_ai(&self) -> (r: Vec<Entity>)
        requires
            self.wf(),
        ensures
            r@ == alerts_upto(self, self.count()),
    {
        let mut r: Vec<Entity> = Vec::new();
        let target = match self.player_pos {
            Some(p) => p,
            None => {
                proof {
                    lemma_no_alerts_without_player(self, self.count());
                }
                return r;
            },
        };
        if self.player_entity().is_none() {
            proof {
                lemma_no_alerts_without_player(self, self.count());
            }
            return r;
        }
        let mut i: usize = 0;
        while i < self.positions.len()
            invariant
                self.wf(),
                self.player_pos == Some(target),
                first_player_from(self.players@, 0) is Some,
                i <= self.count(),
                r@ == alerts_upto(self, i as nat),
            decreases self.count() - i,
        {
            if self.monsters[i].is_some() && self.names[i].is_some() {
                if let Some(v) = &self.viewsheds[i] {
                    if view_contains(&v.visible_tiles, target) {
                        r.push(Entity { id: i });
                    }
                }
            }
            i = i + 1;
        }
        r
    }

    /// Reads one key: a direction moves the player as `try_move_player`
    /// says and lets the systems run; anything else, or no key, changes
    /// nothing and keeps the game waiting.
    pub fn player_input(&mut self, key: Option<Key>) -> (r: RunState)
        requires
            old(self).wf(),
        ensures
            final(self).wf(),
            match key {
                Some(k) => match key_delta(k) {
                    Some(d) => r == RunState::Running && World::moved(old(self), final(self), d.0, d.1),
                    None => r == RunState::Paused && *final(self) == *old(self),
                },
                None => r == RunState::Paused && *final(self) == *old(self),
            },
    {
        match key {
            Some(Key::Left) => {
                self.try_move_player(-1, 0);
                RunState::Running
            },
            Some(Key::Right) => {
                self.try_move_player(1, 0);
                RunState::Running
            },
            Some(Key::Up) => {
                self.try_move_player(0, -1);
                RunState::Running
            },
            Some(Key::Down) => {
                self.try_move_player(0, 1);
                RunState::Running
            },
            _ => RunState::Paused,
        }
    }

    /// `after` is `before` once the player stepped by `(dx, dy)`, as
    /// `try_move_player` says.
    pub open spec fn moved(before: &World, after: &World, dx: int, dy: int) -> bool {
        &&& after.renderables@ == before.renderables@
        &&& after.players@ == before.players@
        &&& after.monsters@ == before.monsters@
        &&& after.names@ == before.names@
        &&& after.pending_deletes@ == before.pending_deletes@
        &&& after.map == before.map
        &&& match before.move_outcome(dx, dy) {
            Some((e, p)) => {
                &&& after.positions@ == before.positions@.update(e, Some(p))
                &&& after.viewsheds@ == before.viewsheds@.update(e, dirtied(before.viewsheds@[e]))
                &&& after.player_pos == Some(Point { x: p.x, y: p.y })
            },
            None => {
                &&& after.positions@ == before.positions@
                &&& after.viewsheds@ == before.viewsheds@
                &&& after.player_pos == before.player_pos
            },
        }
    }
}

proof fn lemma_no_alerts_without_player(w: &World, n: nat)
    requires
        w.player_pos is None || first_player_from(w.players@, 0) is None,
    ensures
        alerts_upto(w, n) == Seq::<Entity>::empty(),
    decreases n,
{
    if n > 0 {
        lemma_no_alerts_without_player(w, (n - 1) as nat);
    }
}

/// A step of the player, for a unit step `(dx, dy)` from the player's
/// position `p`: onto a wall it is cancelled and `p` stays; onto floor
/// inside the grid it moves by exactly `(dx, dy)`; at the grid's edge it is
/// held inside rather than wrapping or leaving it.
pub proof fn lemma_player_step(w: &World, e: int, dx: int, dy: int)
    requires
        w.wf(),
        -1 <= dx <= 1,
        -1 <= dy <= 1,
        first_player_from(w.players@, 0) == Some(e),
        w.positions@[e] is Some,
    ensures
        ({
            let p = w.positions@[e]->Some_0;
            let t = step_target(p, dx, dy);
            &&& in_bounds(t.x as int, t.y as int)
            &&& !w.map.is_floor(t.x as int, t.y as int) ==> w.move_outcome(dx, dy) is None
            &&& in_bounds(p.x + dx, p.y + dy) && w.map.is_floor(p.x + dx, p.y + dy)
                ==> w.move_outcome(dx, dy) == Some((e, Position { x: (p.x + dx) as i32, y: (p.y + dy) as i32 }))
            &&& !in_bounds(p.x + dx, p.y + dy) ==> (t.x as int == clamp(p.x + dx, 0, MAP_WIDTH - 1)
                && t.y as int == clamp(p.y + dy, 0, MAP_HEIGHT - 1))
        }),
{
    lemma_first_player_bounds(w.players@, 0);
}

} // verus!
