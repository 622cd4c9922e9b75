use vstd::prelude::*;
use crate::components::{Monster, Name, Player, Point, Position, Renderable, Viewshed};
use crate::ecs::{Entity, World};
use crate::map::{GameMap, in_bounds};
use crate::systems::{Key, RunState, alerts_upto, first_player_from};

verus! {

/// The entities, in order, among the first `n` that hold a position and a
/// renderable and stand on a cell the player sees now.
pub open spec fn shown_upto(w: &World, n: nat) -> Seq<(Position, Renderable)>
    decreases n,
{
    if n == 0 {
        Seq::empty()
    } else {
        let prev = shown_upto(w, (n - 1) as nat);
        let i = (n - 1) as int;
        if w.positions@[i] is Some && w.renderables@[i] is Some
            && w.map.visible_at(w.positions@[i]->Some_0.x as int, w.positions@[i]->Some_0.y as int) {
            prev.push((w.positions@[i]->Some_0, w.renderables@[i]->Some_0))
        } else {
            prev
        }
    }
}

/// Entity `i` after a pass of the systems: gone if its deletion was pending;
/// else every store but its viewshed is as before, and its viewshed is
/// recomputed if it was dirty and the entity had a position.
pub open spec fn frame_kept(before: &World, after: &World, i: int) -> bool {
    if before.pending(i) {
        &&& after.positions@[i] is None
        &&& after.renderables@[i] is None
        &&& after.players@[i] is None
        &&& after.monsters@[i] is None
        &&& after.names@[i] is None
        &&& after.viewsheds@[i] is None
    } else {
        &&& after.positions@[i] == before.positions@[i]
        &&& after.renderables@[i] == before.renderables@[i]
        &&& after.players@[i] == before.players@[i]
        &&& after.monsters@[i] == before.monsters@[i]
        &&& after.names@[i] == before.names@[i]
        &&& if before.needs_view(i) {
            before.view_recomputed(after, i)
        } else {
            after.viewsheds@[i] == before.viewsheds@[i]
        }
    }
}

/// What one pass of the systems does to a world, with `alerts` what the
/// monster system reported.
pub open spec fn systems_pass(before: &World, after: &World, alerts: Seq<Entity>) -> bool {
    &&& after.count() == before.count()
    &&& after.pending_deletes@.len() == 0
    &&& after.player_pos == before.player_pos
    &&& after.map.tiles@ == before.map.tiles@
    &&& after.map.rooms@ == before.map.rooms@
    &&& before.map.revealed_kept(&after.map)
    &&& forall|x: int, y: int| in_bounds(x, y) && #[trigger] after.map.revealed_at(x, y)
        ==> before.map.revealed_at(x, y) || before.seen_by_player(x, y, before.count() as int)
    &&& forall|i: int| 0 <= i < before.count() && #[trigger] before.player_needs_view(i)
        ==> before.view_revealed(after, i)
    &&& forall|i: int| 0 <= i < before.count() && #[trigger] before.last_player_view(i, before.count() as int)
        ==> before.view_shown(after, i)
    &&& forall|i: int| 0 <= i < before.count() ==> #[trigger] frame_kept(before, after, i)
    &&& before.pending_deletes@.len() == 0 ==> alerts == alerts_upto(after, after.count())
}

/// The whole game: the world and whether it waits for a key.
pub struct State {
    pub ecs: World,
    pub runstate: RunState,
}

impl State {
    pub open spec fn wf(&self) -> bool {
        self.ecs.wf()
    }

    /// One pass of the systems in their fixed order: visibility, then the
    /// monsters, then the deferred deletions. Returns the monsters that see
    /// the player.
    pub fn run_systems(&mut self) -> (alerts: Vec<Entity>)
        requires
            old(self).wf(),
        ensures
            final(self).wf(),
            final(self).runstate == old(self).runstate,
            systems_pass(&old(self).ecs, &final(self).ecs, alerts@),
    {
        let ghost start = self.ecs;
        self.ecs.visibility_system();
        let alerts = self.ecs.monster_ai();
        let ghost seen = self.ecs;
        self.ecs.maintain();
        proof {
            assert forall|i: int| 0 <= i < start.count() && #[trigger] start.player_needs_view(i)
                implies start.view_revealed(&self.ecs, i) by {
                assert(start.view_revealed(&seen, i));
            }
            assert forall|i: int| 0 <= i < start.count()
                && #[trigger] start.last_player_view(i, start.count() as int)
                implies start.view_shown(&self.ecs, i) by {
                assert(start.view_shown(&seen, i));
            }
            assert forall|i: int| 0 <= i < start.count() implies #[trigger] frame_kept(&start, &self.ecs, i) by {
                assert(seen.pending(i) == start.pending(i));
                if !start.pending(i) && start.needs_view(i) {
                    assert(start.view_recomputed(&seen, i));
                }
            }
            if start.pending_deletes@.len() == 0 {
                assert forall|i: int| 0 <= i < seen.count() implies !#[trigger] seen.pending(i) by {}
                assert forall|i: int| 0 <= i < seen.count()
                    implies #[trigger] self.ecs.players@[i] == seen.players@[i] by {
                    assert(!seen.pending(i));
                }
                assert forall|i: int| 0 <= i < seen.count()
                    implies #[trigger] self.ecs.monsters@[i] == seen.monsters@[i] by {
                    assert(!seen.pending(i));
                }
                assert forall|i: int| 0 <= i < seen.count()
                    implies #[trigger] self.ecs.names@[i] == seen.names@[i] by {
                    assert(!seen.pending(i));
                }
                assert forall|i: int| 0 <= i < seen.count()
                    implies #[trigger] self.ecs.viewsheds@[i] == seen.viewsheds@[i] by {
                    assert(!seen.pending(i));
                }
                assert(self.ecs.players@ =~= seen.players@);
                assert(self.ecs.monsters@ =~= seen.monsters@);
                assert(self.ecs.viewsheds@ =~= seen.viewsheds@);
                assert(self.ecs.names@ =~= seen.names@);
                lemma_alerts_same(&self.ecs, &seen, seen.count());
            }
        }
        alerts
    }

    /// One frame. When running, the systems make one pass as `run_systems`
    /// says and the game waits again; when waiting, the key is read as
    /// `player_input` says. Returns the monsters that saw the player.
    pub fn tick(&mut self, key: Option<Key>) -> (alerts: Vec<Entity>)
        requires
            old(self).wf(),
        ensures
            final(self).wf(),
            old(self).ecs.map.revealed_kept(&final(self).ecs.map),
            final(self).ecs.map.tiles@ == old(self).ecs.map.tiles@,
            old(self).runstate == RunState::Running ==> {
                &&& final(self).runstate == RunState::Paused
                &&& systems_pass(&old(self).ecs, &final(self).ecs, alerts@)
            },
            old(self).runstate == RunState::Paused ==> alerts@.len() == 0 && match key {
                Some(k) => match crate::systems::key_delta(k) {
                    Some(d) => final(self).runstate == RunState::Running
                        && World::moved(&old(self).ecs, &final(self).ecs, d.0, d.1),
                    None => *final(self) == *old(self),
                },
                None => *final(self) == *old(self),
            },
    {
        if self.runstate == RunState::Running {
            let alerts = self.run_systems();
            self.runstate = RunState::Paused;
            alerts
        } else {
            let next = self.ecs.player_input(key);
            self.runstate = next;
            proof {
                assert forall|x: int, y: int| in_bounds(x, y) && #[trigger] old(self).ecs.map.revealed_at(x, y)
                    implies self.ecs.map.revealed_at(x, y) by {}
            }
            Vec::new()
        }
    }

    /// What to draw this frame: each entity with a position and a
    /// renderable that stands on a cell the player sees now.
    pub fn entities_in_view(&self) -> (r: Vec<(Position, Renderable)>)
        requires
            self.wf(),
        ensures
            r@ == shown_upto(&self.ecs, self.ecs.count()),
    {
        let mut r: Vec<(Position, Renderable)> = Vec::new();
        let mut i: usize = 0;
        while i < self.ecs.positions.len()
            invariant
                self.wf(),
                i <= self.ecs.count(),
                r@ == shown_upto(&self.ecs, i as nat),
            decreases self.ecs.count() - i,
        {
            if let Some(p) = &self.ecs.positions[i] {
                if let Some(d) = &self.ecs.renderables[i] {
                    let idx = self.ecs.map.xy_idx(p.x, p.y);
                    if self.ecs.map.visible_tiles[idx] {
                        r.push((*p, *d));
                    }
                }
            }
            i = i + 1;
        }
        r
    }
}

proof fn lemma_alerts_same(a: &World, b: &World, n: nat)
    requires
        a.players@ == b.players@,
        a.names@ == b.names@,
        a.monsters@ == b.monsters@,
        a.viewsheds@ == b.viewsheds@,
        a.player_pos == b.player_pos,
    ensures
        alerts_upto(a, n) == alerts_upto(b, n),
    decreases n,
{
    if n > 0 {
        lemma_alerts_same(a, b, (n - 1) as nat);
    }
}

/// Revealed cells stay revealed for the whole session: when each step keeps
/// what the one before had revealed, every later map keeps what any earlier
/// one had revealed.
pub proof fn lemma_revealed_stays(maps: Seq<GameMap>)
    requires
        forall|i: int| 0 <= i < maps.len() - 1 ==> (#[trigger] maps[i]).revealed_kept(&maps[i + 1]),
    ensures
        forall|i: int, j: int| 0 <= i <= j < maps.len() ==> #[trigger] maps[i].revealed_kept(&maps[j]),
    decreases maps.len(),
{
    if maps.len() > 0 {
        let prefix = maps.drop_last();
        assert forall|i: int| 0 <= i < prefix.len() - 1 implies (#[trigger] prefix[i]).revealed_kept(&prefix[i + 1]) by {
            assert(maps[i].revealed_kept(&maps[i + 1]));
        }
        lemma_revealed_stays(prefix);
        assert forall|i: int, j: int| 0 <= i <= j < maps.len() implies
            #[trigger] maps[i].revealed_kept(&maps[j]) by {
            if j < maps.len() - 1 {
                assert(prefix[i].revealed_kept(&prefix[j]));
            } else if i < j {
                assert(prefix[i].revealed_kept(&prefix[j - 1]));
                assert(maps[j - 1].revealed_kept(&maps[j]));
            }
        }
    }
}

/// Exactly one entity is the player, it has a position, and the tracked
/// player position is that position.
pub open spec fn player_tracked(w: &World) -> bool {
    exists|e: int| 0 <= e < w.count() && #[trigger] w.positions@[e] is Some
        && first_player_from(w.players@, 0) == Some(e)
        && (forall|k: int| 0 <= k < w.count() && k != e ==> #[trigger] w.players@[k] is None)
        && w.player_pos == Some(Point { x: w.positions@[e]->Some_0.x, y: w.positions@[e]->Some_0.y })
}

/// A step of the player keeps the tracked position on the one player.
pub proof fn lemma_step_keeps_player_tracked(before: &World, after: &World, dx: int, dy: int)
    requires
        player_tracked(before),
        World::moved(before, after, dx, dy),
    ensures
        player_tracked(after),
{
    let e = choose|e: int| 0 <= e < before.count() && #[trigger] before.positions@[e] is Some
        && first_player_from(before.players@, 0) == Some(e)
        && (forall|k: int| 0 <= k < before.count() && k != e ==> #[trigger] before.players@[k] is None)
        && before.player_pos == Some(Point { x: before.positions@[e]->Some_0.x, y: before.positions@[e]->Some_0.y });
    assert(after.positions@[e] is Some);
}

/// A pass of the systems with no deletion pending keeps the tracked
/// position on the one player.
pub proof fn lemma_pass_keeps_player_tracked(before: &World, after: &World, alerts: Seq<Entity>)
    requires
        before.wf(),
        after.wf(),
        before.pending_deletes@.len() == 0,
        player_tracked(before),
        systems_pass(before, after, alerts),
    ensures
        player_tracked(after),
{
    let e = choose|e: int| 0 <= e < before.count() && #[trigger] before.positions@[e] is Some
        && first_player_from(before.players@, 0) == Some(e)
        && (forall|k: int| 0 <= k < before.count() && k != e ==> #[trigger] before.players@[k] is None)
        && before.player_pos == Some(Point { x: before.positions@[e]->Some_0.x, y: before.positions@[e]->Some_0.y });
    assert forall|i: int| 0 <= i < before.count() implies #[trigger] after.players@[i] == before.players@[i] by {
        assert(frame_kept(before, after, i));
    }
    assert forall|i: int| 0 <= i < before.count() implies #[trigger] after.positions@[i] == before.positions@[i] by {
        assert(frame_kept(before, after, i));
    }
    assert(after.players@ =~= before.players@);
    assert(after.positions@ =~= before.positions@);
    assert(after.positions@[e] is Some);
}

impl World {
    /// Adds the player at `(x, y)`, drawn as `render`, seeing `range` cells
    /// (recomputed on the next pass), named `name`, and tracks its position.
    pub fn spawn_player(&mut self, x: i32, y: i32, render: Renderable, range: i32, name: Name) -> (e: Entity)
        requires
            old(self).wf(),
            in_bounds(x as int, y as int),
        ensures
            final(self).wf(),
            e.id == old(self).count(),
            final(self).positions@ == old(self).positions@.push(Some(Position { x, y })),
            final(self).renderables@ == old(self).renderables@.push(Some(render)),
            final(self).players@ == old(self).players@.push(Some(Player {})),
            final(self).monsters@ == old(self).monsters@.push(None),
            final(self).names@ == old(self).names@.push(Some(name)),
            final(self).viewsheds@.len() == old(self).viewsheds@.len() + 1,
            final(self).viewsheds@.drop_last() == old(self).viewsheds@,
            final(self).viewsheds@.last() matches Some(v) && v.visible_tiles@.len() == 0 && v.range == range && v.dirty,
            final(self).pending_deletes@ == old(self).pending_deletes@,
            final(self).map == old(self).map,
            final(self).player_pos == Some(Point { x, y }),
            (forall|k: int| 0 <= k < old(self).count() ==> #[trigger] old(self).players@[k] is None)
                ==> player_tracked(final(self)),
    {
        let e = self.create_entity();
        self.insert_position(e, Position { x, y });
        self.insert_renderable(e, render);
        self.insert_player(e);
        self.insert_viewshed(e, Viewshed { visible_tiles: Vec::new(), range, dirty: true });
        self.insert_name(e, name);
        self.player_pos = Some(Point { x, y });
        proof {
            assert(self.positions@ =~= old(self).positions@.push(Some(Position { x, y })));
            assert(self.viewsheds@.drop_last() =~= old(self).viewsheds@);
            if forall|k: int| 0 <= k < old(self).count() ==> #[trigger] old(self).players@[k] is None {
                lemma_first_player_is_last(self.players@, 0);
                assert(self.positions@[e.id as int] is Some);
            }
        }
        e
    }

    /// Adds a monster at `(x, y)`, drawn as `render`, seeing `range` cells
    /// (recomputed on the next pass), named `name`.
    pub fn spawn_monster(&mut self, x: i32, y: i32, render: Renderable, range: i32, name: Name) -> (e: Entity)
        requires
            old(self).wf(),
            in_bounds(x as int, y as int),
        ensures
            final(self).wf(),
            e.id == old(self).count(),
            final(self).positions@ == old(self).positions@.push(Some(Position { x, y })),
            final(self).renderables@ == old(self).renderables@.push(Some(render)),
            final(self).players@ == old(self).players@.push(None),
            final(self).monsters@ == old(self).monsters@.push(Some(Monster {})),
            final(self).names@ == old(self).names@.push(Some(name)),
            final(self).viewsheds@.len() == old(self).viewsheds@.len() + 1,
            final(self).viewsheds@.drop_last() == old(self).viewsheds@,
            final(self).viewsheds@.last() matches Some(v) && v.visible_tiles@.len() == 0 && v.range == range && v.dirty,
            final(self).pending_deletes@ == old(self).pending_deletes@,
            final(self).map == old(self).map,
            final(self).player_pos == old(self).player_pos,
    {
        let e = self.create_entity();
        self.insert_position(e, Position { x, y });
        self.insert_renderable(e, render);
        self.insert_monster(e);
        self.insert_viewshed(e, Viewshed { visible_tiles: Vec::new(), range, dirty: true });
        self.insert_name(e, name);
        proof {
            assert(self.positions@ =~= old(self).positions@.push(Some(Position { x, y })));
            assert(self.viewsheds@.drop_last() =~= old(self).viewsheds@);
        }
        e
    }
}

proof fn lemma_first_player_is_last(players: Seq<Option<Player>>, i: int)
    requires
        players.len() >= 1,
        players.last() is Some,
        0 <= i < players.len(),
        forall|k: int| 0 <= k < players.len() - 1 ==> #[trigger] players[k] is None,
    ensures
        first_player_from(players, i) == Some(players.len() - 1),
    decreases players.len() - i,
{
    if i < players.len() - 1 {
        lemma_first_player_is_last(players, i + 1);
    }
}

} // verus!
