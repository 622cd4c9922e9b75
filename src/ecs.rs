use vstd::prelude::*;
use crate::components::{Monster, Name, Player, Point, Position, Renderable, Viewshed};
use crate::map::{GameMap, in_bounds};

verus! {

/// An entity: an index into each component store, with no data of its own.
#[derive(Clone, Copy, Debug, PartialEq, Eq, Structural)]
pub struct Entity {
    pub id: usize,
}

/// The kinds of component an entity can hold.
#[derive(Clone, Copy, Debug, PartialEq, Eq, Structural)]
pub enum ComponentKind {
    Position,
    Renderable,
    Player,
    Monster,
    Name,
    Viewshed,
}

/// All entities and their components, one store per kind indexed by entity,
/// with the map and the player's tracked position as shared resources.
/// Deletions asked for during a pass wait in `pending_deletes` until
/// `maintain`.
pub struct World {
    pub positions: Vec<Option<Position>>,
    pub renderables: Vec<Option<Renderable>>,
    pub players: Vec<Option<Player>>,
    pub monsters: Vec<Option<Monster>>,
    pub names: Vec<Option<Name>>,
    pub viewsheds: Vec<Option<Viewshed>>,
    pub pending_deletes: Vec<Entity>,
    pub map: GameMap,
    pub player_pos: Option<Point>,
}

/// The entities, in order, among the first `n` that hold both a position
/// and a renderable, each with the two.
pub open spec fn join_upto(
    positions: Seq<Option<Position>>,
    renderables: Seq<Option<Renderable>>,
    n: nat,
) -> Seq<(Entity, Position, Renderable)>
    decreases n,
{
    if n == 0 {
        Seq::empty()
    } else {
        let prev = join_upto(positions, renderables, (n - 1) as nat);
        let i = (n - 1) as int;
        if positions[i] is Some && renderables[i] is Some {
            prev.push((Entity { id: i as usize }, positions[i]->Some_0, renderables[i]->Some_0))
        } else {
            prev
        }
    }
}

impl World {
    /// Number of entity slots ever created.
    pub open spec fn count(&self) -> nat {
        self.positions@.len()
    }

    pub open spec fn wf(&self) -> bool {
        &&& self.map.wf()
        &&& self.renderables@.len() == self.count()
        &&& self.players@.len() == self.count()
        &&& self.monsters@.len() == self.count()
        &&& self.names@.len() == self.count()
        &&& self.viewsheds@.len() == self.count()
        &&& forall|i: int| 0 <= i < self.count() && (#[trigger] self.positions@[i]) is Some
            ==> in_bounds(self.positions@[i]->Some_0.x as int, self.positions@[i]->Some_0.y as int)
        &&& forall|i: int| 0 <= i < self.pending_deletes@.len()
            ==> (#[trigger] self.pending_deletes@[i]).id < self.count()
    }

    /// `self` and `other` differ at most in the store of `kind`.
    pub open spec fn same_but(&self, other: &World, kind: ComponentKind) -> bool {
        &&& kind != ComponentKind::Position ==> self.positions@ == other.positions@
        &&& kind != ComponentKind::Renderable ==> self.renderables@ == other.renderables@
        &&& kind != ComponentKind::Player ==> self.players@ == other.players@
        &&& kind != ComponentKind::Monster ==> self.monsters@ == other.monsters@
        &&& kind != ComponentKind::Name ==> self.names@ == other.names@
        &&& kind != ComponentKind::Viewshed ==> self.viewsheds@ == other.viewsheds@
        &&& self.positions@.len() == other.positions@.len()
        &&& self.pending_deletes@ == other.pending_deletes@
        &&& self.map == other.map
        &&& self.player_pos == other.player_pos
    }

    /// A world with no entity, holding `map`.
    pub fn new(map: GameMap) -> (w: World)
        requires
            map.wf(),
        ensures
            w.wf(),
            w.count() == 0,
            w.pending_deletes@.len() == 0,
            w.map == map,
            w.player_pos is None,
    {
        World {
            positions: Vec::new(),
            renderables: Vec::new(),
            players: Vec::new(),
            monsters: Vec::new(),
            names: Vec::new(),
            viewsheds: Vec::new(),
            pending_deletes: Vec::new(),
            map,
            player_pos: None,
        }
    }

    /// Makes a new entity with no component.
    pub fn create_entity(&mut self) -> (e: Entity)
        requires
            old(self).wf(),
        ensures
            final(self).wf(),
            e.id == old(self).count(),
            final(self).positions@ == old(self).positions@.push(None),
            final(self).renderables@ == old(self).renderables@.push(None),
            final(self).players@ == old(self).players@.push(None),
            final(self).monsters@ == old(self).monsters@.push(None),
            final(self).names@ == old(self).names@.push(None),
            final(self).viewsheds@ == old(self).viewsheds@.push(None),
            final(self).pending_deletes@ == old(self).pending_deletes@,
            final(self).map == old(self).map,
            final(self).player_pos == old(self).player_pos,
    {
        let id = self.positions.len();
        self.positions.push(None);
        self.renderables.push(None);
        self.players.push(None);
        self.monsters.push(None);
        self.names.push(None);
        self.viewsheds.push(None);
        proof {
            assert forall|i: int| 0 <= i < self.pending_deletes@.len()
                implies (#[trigger] self.pending_deletes@[i]).id < self.count() by {
                assert(old(self).pending_deletes@[i].id < old(self).count());
            }
        }
        Entity { id }
    }

    /// Gives `e` the position `p`, replacing any it had.
    pub fn insert_position(&mut self, e: Entity, p: Position)
        requires
            old(self).wf(),
            e.id < old(self).count(),
            in_bounds(p.x as int, p.y as int),
        ensures
            final(self).wf(),
            final(self).same_but(old(self), ComponentKind::Position),
            final(self).positions@ == old(self).positions@.update(e.id as int, Some(p)),
    {
        self.positions.set(e.id, Some(p));
    }

    /// Gives `e` the renderable `r`, replacing any it had.
    pub fn insert_renderable(&mut self, e: Entity, r: Renderable)
        requires
            old(self).wf(),
            e.id < old(self).count(),
        ensures
            final(self).wf(),
            final(self).same_but(old(self), ComponentKind::Renderable),
            final(self).renderables@ == old(self).renderables@.update(e.id as int, Some(r)),
    {
        self.renderables.set(e.id, Some(r));
    }

    /// Tags `e` as the player.
    pub fn insert_player(&mut self, e: Entity)
        requires
            old(self).wf(),
            e.id < old(self).count(),
        ensures
            final(self).wf(),
            final(self).same_but(old(self), ComponentKind::Player),
            final(self).players@ == old(self).players@.update(e.id as int, Some(Player {})),
    {
        self.players.set(e.id, Some(Player {}));
    }

    /// Tags `e` as a monster.
    pub fn insert_monster(&mut self, e: Entity)
        requires
            old(self).wf(),
            e.id < old(self).count(),
        ensures
            final(self).wf(),
            final(self).same_but(old(self), ComponentKind::Monster),
            final(self).monsters@ == old(self).monsters@.update(e.id as int, Some(Monster {})),
    {
        self.monsters.set(e.id, Some(Monster {}));
    }

    /// Gives `e` the name `n`, replacing any it had.
    pub fn insert_name(&mut self, e: Entity, n: Name)
        requires
            old(self).wf(),
            e.id < old(self).count(),
        ensures
            final(self).wf(),
            final(self).same_but(old(self), ComponentKind::Name),
            final(self).names@ == old(self).names@.update(e.id as int, Some(n)),
    {
        self.names.set(e.id, Some(n));
    }

    /// Gives `e` the viewshed `v`, replacing any it had.
    pub fn insert_viewshed(&mut self, e: Entity, v: Viewshed)
        requires
            old(self).wf(),
            e.id < old(self).count(),
        ensures
            final(self).wf(),
            final(self).same_but(old(self), ComponentKind::Viewshed),
            final(self).viewsheds@ == old(self).viewsheds@.update(e.id as int, Some(v)),
    {
        self.viewsheds.set(e.id, Some(v));
    }

    /// Takes the component of `kind` away from `e`, if it held one.
    pub fn remove_component(&mut self, e: Entity, kind: ComponentKind)
        requires
            old(self).wf(),
            e.id < old(self).count(),
        ensures
            final(self).wf(),
            final(self).same_but(old(self), kind),
            kind == ComponentKind::Position ==> final(self).positions@ == old(self).positions@.update(e.id as int, None),
            kind == ComponentKind::Renderable ==> final(self).renderables@ == old(self).renderables@.update(e.id as int, None),
            kind == ComponentKind::Player ==> final(self).players@ == old(self).players@.update(e.id as int, None),
            kind == ComponentKind::Monster ==> final(self).monsters@ == old(self).monsters@.update(e.id as int, None),
            kind == ComponentKind::Name ==> final(self).names@ == old(self).names@.update(e.id as int, None),
            kind == ComponentKind::Viewshed ==> final(self).viewsheds@ == old(self).viewsheds@.update(e.id as int, None),
    {
        match kind {
            ComponentKind::Position => self.positions.set(e.id, None),
            ComponentKind::Renderable => self.renderables.set(e.id, None),
            ComponentKind::Player => self.players.set(e.id, None),
            ComponentKind::Monster => self.monsters.set(e.id, None),
            ComponentKind::Name => self.names.set(e.id, None),
            ComponentKind::Viewshed => self.viewsheds.set(e.id, None),
        }
    }

    /// Asks for `e` to be deleted at the next `maintain`; until then it keeps
    /// its components, so that a pass over the stores is not disturbed.
    pub fn delete_entity(&mut self, e: Entity)
        requires
            old(self).wf(),
            e.id < old(self).count(),
        ensures
            final(self).wf(),
            final(self).pending_deletes@ == old(self).pending_deletes@.push(e),
            final(self).positions@ == old(self).positions@,
            final(self).renderables@ == old(self).renderables@,
            final(self).players@ == old(self).players@,
            final(self).monsters@ == old(self).monsters@,
            final(self).names@ == old(self).names@,
            final(self).viewsheds@ == old(self).viewsheds@,
            final(self).map == old(self).map,
            final(self).player_pos == old(self).player_pos,
    {
        self.pending_deletes.push(e);
    }

    /// Whether entity `i` was asked to be deleted.
    pub open spec fn pending(&self, i: int) -> bool {
        exists|k: int| 0 <= k < self.pending_deletes@.len() && (#[trigger] self.pending_deletes@[k]).id == i
    }

    /// Carries out the deletions asked for: each such entity loses every
    /// component, and the queue is emptied.
    pub fn maintain(&mut self)
        requires
            old(self).wf(),
        ensures
            final(self).wf(),
            final(self).pending_deletes@.len() == 0,
            final(self).count() == old(self).count(),
            final(self).map == old(self).map,
            final(self).player_pos == old(self).player_pos,
            forall|i: int| 0 <= i < old(self).count() ==> {
                let gone = #[trigger] old(self).pending(i);
                &&& final(self).positions@[i] == if gone { None } else { old(self).positions@[i] }
                &&& final(self).renderables@[i] == if gone { None } else { old(self).renderables@[i] }
                &&& final(self).players@[i] == if gone { None } else { old(self).players@[i] }
                &&& final(self).monsters@[i] == if gone { None } else { old(self).monsters@[i] }
                &&& final(self).names@[i] == if gone { None } else { old(self).names@[i] }
                &&& final(self).viewsheds@[i] == if gone { None } else { old(self).viewsheds@[i] }
            },
    {
        let ghost start = *self;
        let mut k: usize = 0;
        while k < self.pending_deletes.len()
            invariant
                self.wf(),
                0 <= k <= self.pending_deletes@.len(),
                self.pending_deletes@ == start.pending_deletes@,
                self.count() == start.count(),
                self.map == start.map,
                self.player_pos == start.player_pos,
                forall|i: int| 0 <= i < start.count() ==> {
                    let gone = exists|j: int| 0 <= j < k && (#[trigger] start.pending_deletes@[j]).id == i;
                    &&& #[trigger] self.positions@[i] == if gone { None } else { start.positions@[i] }
                    &&& self.renderables@[i] == if gone { None } else { start.renderables@[i] }
                    &&& self.players@[i] == if gone { None } else { start.players@[i] }
                    &&& self.monsters@[i] == if gone { None } else { start.monsters@[i] }
                    &&& self.names@[i] == if gone { None } else { start.names@[i] }
                    &&& self.viewsheds@[i] == if gone { None } else { start.viewsheds@[i] }
                },
            decreases self.pending_deletes@.len() - k,
        {
            let id = self.pending_deletes[k].id;
            self.positions.set(id, None);
            self.renderables.set(id, None);
            self.players.set(id, None);
            self.monsters.set(id, None);
            self.names.set(id, None);
            self.viewsheds.set(id, None);
            proof {
                assert forall|i: int| 0 <= i < start.count() implies {
                    let gone = exists|j: int| 0 <= j < k + 1 && (#[trigger] start.pending_deletes@[j]).id == i;
                    &&& #[trigger] self.positions@[i] == if gone { None } else { start.positions@[i] }
                    &&& self.renderables@[i] == if gone { None } else { start.renderables@[i] }
                    &&& self.players@[i] == if gone { None } else { start.players@[i] }
                    &&& self.monsters@[i] == if gone { None } else { start.monsters@[i] }
                    &&& self.names@[i] == if gone { None } else { start.names@[i] }
                    &&& self.viewsheds@[i] == if gone { None } else { start.viewsheds@[i] }
                } by {
                    if i == id as int {
                        assert(start.pending_deletes@[k as int].id == i);
                    } else if exists|j: int| 0 <= j < k + 1 && (#[trigger] start.pending_deletes@[j]).id == i {
                        let j = choose|j: int| 0 <= j < k + 1 && (#[trigger] start.pending_deletes@[j]).id == i;
                        assert(j < k);
                    }
                }
            }
            k = k + 1;
        }
        self.pending_deletes.clear();
    }

    /// Every entity that holds both a position and a renderable, in order of
    /// creation, each with the two.
    pub fn join_positions_renderables(&self) -> (r: Vec<(Entity, Position, Renderable)>)
        requires
            self.wf(),
        ensures
            r@ == join_upto(self.positions@, self.renderables@, self.count()),
    {
        let mut r: Vec<(Entity, Position, Renderable)> = Vec::new();
        let mut i: usize = 0;
        while i < self.positions.len()
            invariant
                self.wf(),
                i <= self.count(),
                r@ == join_upto(self.positions@, self.renderables@, i as nat),
            decreases self.count() - i,
        {
            match (&self.positions[i], &self.renderables[i]) {
                (Some(p), Some(d)) => {
                    r.push((Entity { id: i }, *p, *d));
                },
                _ => {},
            }
            i = i + 1;
        }
        r
    }
    /// The position of `e`, if it has one.
    pub fn position(&self, e: Entity) -> (r: Option<Position>)
        requires
            self.wf(),
            e.id < self.count(),
        ensures
            r == self.positions@[e.id as int],
    {
        self.positions[e.id]
    }

    /// The renderable of `e`, if it has one.
    pub fn renderable(&self, e: Entity) -> (r: Option<Renderable>)
        requires
            self.wf(),
            e.id < self.count(),
        ensures
            r == self.renderables@[e.id as int],
    {
        self.renderables[e.id]
    }

    /// The name of `e`, if it has one.
    pub fn name(&self, e: Entity) -> (r: Option<&Name>)
        requires
            self.wf(),
            e.id < self.count(),
        ensures
            r == match self.names@[e.id as int] {
                Some(n) => Some(&n),
                None => None,
            },
    {
        match &self.names[e.id] {
            Some(n) => Some(n),
            None => None,
        }
    }

    /// The viewshed of `e`, if it has one.
    pub fn viewshed(&self, e: Entity) -> (r: Option<&Viewshed>)
        requires
            self.wf(),
            e.id < self.count(),
        ensures
            r == match self.viewsheds@[e.id as int] {
                Some(v) => Some(&v),
                None => None,
            },
    {
        match &self.viewsheds[e.id] {
            Some(v) => Some(v),
            None => None,
        }
    }
}

} // verus!
