use vstd::prelude::*;
use crate::geometry::{Point, COORD_LIMIT};
use crate::map::{GameMap, GroundType};
use crate::entity::{EntityType, Task};
use crate::entity_holder::{EntityHolder, order_outcome, spawn_outcome, building_outcome, tick_outcome};
use crate::map::ground_set;
use crate::building::BUILDING_SIZE;

verus! {

/// An order from the game loop, queued until the next tick.
pub enum GameEvent {
    OrderUnits { task: Task, unit_ids: Vec<u32> },
    InsertUnit { location: Point, team_id: u32, unit_type: EntityType },
    SetMapPoint { location: (i32, i32), ground_type: GroundType },
    AddBuilding { location: (i32, i32) },
}

/// What applying one order `ev` does, from map `m` and holder `h` to
/// `m2` and `h2`. Orders that cannot apply (a unit outside the world, no
/// ids left, a building past the coordinate range) change nothing.
pub open spec fn event_outcome(m: GameMap, h: EntityHolder, ev: GameEvent, m2: GameMap, h2: EntityHolder) -> bool {
    match ev {
        GameEvent::OrderUnits { task, unit_ids } => m2 == m && order_outcome(m, task, unit_ids@, h, h2),
        GameEvent::InsertUnit { location, team_id, unit_type } => {
            &&& m2 == m
            &&& if location.wf() && h.id_counter_spec() < u32::MAX {
                spawn_outcome(location.x, location.y, team_id, unit_type, h, h2)
            } else {
                h2 == h
            }
        },
        GameEvent::SetMapPoint { location, ground_type } => h2 == h && ground_set(
            m,
            location.0 as int,
            location.1 as int,
            ground_type,
            m2,
        ),
        GameEvent::AddBuilding { location } => {
            if location.0 <= i32::MAX - BUILDING_SIZE && location.1 <= i32::MAX - BUILDING_SIZE {
                building_outcome(location, h, h2, m, m2)
            } else {
                h2 == h && m2 == m
            }
        },
    }
}

/// Applying `events` newest first, starting from `m` and `h`, passes
/// through `states` and ends in `fm` and `fh`: `states[i + 1]` is
/// `states[i]` after the `i`-th newest event.
pub open spec fn drained(
    m: GameMap,
    h: EntityHolder,
    events: Seq<GameEvent>,
    states: Seq<(GameMap, EntityHolder)>,
    fm: GameMap,
    fh: EntityHolder,
) -> bool {
    &&& states.len() == events.len() + 1
    &&& states[0] == (m, h)
    &&& states.last() == (fm, fh)
    &&& forall|i: int|
        0 <= i < events.len() ==> event_outcome(
            (#[trigger] states[i]).0,
            states[i].1,
            events[events.len() - 1 - i],
            states[i + 1].0,
            states[i + 1].1,
        )
}

/// The whole simulation: tick counter, map, units and the queue of orders
/// waiting for the next tick.
pub struct GameState {
    tick: u32,
    map: GameMap,
    entity_holder: EntityHolder,
    event_log: Vec<GameEvent>,
}

impl GameState {
    pub closed spec fn tick_spec(&self) -> u32 {
        self.tick
    }

    pub closed spec fn map_spec(&self) -> GameMap {
        self.map
    }

    pub closed spec fn holder_spec(&self) -> EntityHolder {
        self.entity_holder
    }

    /// The queued orders, oldest first.
    pub closed spec fn events_spec(&self) -> Seq<GameEvent> {
        self.event_log@
    }

    pub open spec fn wf(&self) -> bool {
        self.map_spec().wf() && self.holder_spec().wf()
    }

    /// A game on `map` with no units and nothing queued.
    pub fn new(map: GameMap) -> (r: GameState)
        requires
            map.wf(),
        ensures
            r.wf(),
            r.tick_spec() == 0,
            r.map_spec() == map,
            r.holder_spec().entities_spec().len() == 0,
            r.holder_spec().projectiles_spec().len() == 0,
            r.holder_spec().buildings_spec().len() == 0,
            r.holder_spec().id_counter_spec() == 0,
            r.holder_spec().debug_tree_spec().is_none(),
            r.events_spec().len() == 0,
    {
        GameState { tick: 0, map, entity_holder: EntityHolder::new(), event_log: Vec::new() }
    }

    /// A game at `tick` with the given map and units and nothing queued,
    /// for rebuilding saved state.
    pub fn restore(tick: u32, map: GameMap, entity_holder: EntityHolder) -> (r: GameState)
        requires
            map.wf(),
            entity_holder.wf(),
        ensures
            r.wf(),
            r.tick_spec() == tick,
            r.map_spec() == map,
            r.holder_spec() == entity_holder,
            r.events_spec().len() == 0,
    {
        GameState { tick, map, entity_holder, event_log: Vec::new() }
    }

    pub fn map(&self) -> (r: &GameMap)
        ensures
            *r == self.map_spec(),
    {
        &self.map
    }

    pub fn entity_holder(&self) -> (r: &EntityHolder)
        ensures
            *r == self.holder_spec(),
    {
        &self.entity_holder
    }

    pub fn tick(&self) -> (r: u32)
        ensures
            r == self.tick_spec(),
    {
        self.tick
    }

    /// Number of queued orders.
    pub fn pending_events(&self) -> (r: usize)
        ensures
            r == self.events_spec().len(),
    {
        self.event_log.len()
    }

    /// Queues an order for the next tick.
    pub fn dispatch_event(&mut self, game_event: GameEvent)
        requires
            old(self).wf(),
        ensures
            final(self).wf(),
            final(self).events_spec() == old(self).events_spec().push(game_event),
            final(self).tick_spec() == old(self).tick_spec(),
            final(self).map_spec() == old(self).map_spec(),
            final(self).holder_spec() == old(self).holder_spec(),
    {
        self.event_log.push(game_event);
    }

    /// Applies one order. Orders that cannot apply (a unit outside the
    /// world, no ids left, a building past the coordinate range) are dropped.
    fn apply_event(&mut self, game_event: GameEvent)
        requires
            old(self).wf(),
        ensures
            final(self).wf(),
            event_outcome(
                old(self).map_spec(),
                old(self).holder_spec(),
                game_event,
                final(self).map_spec(),
                final(self).holder_spec(),
            ),
            final(self).tick_spec() == old(self).tick_spec(),
            final(self).events_spec() == old(self).events_spec(),
    {
        match game_event {
            GameEvent::OrderUnits { task, unit_ids } => {
                self.entity_holder.order_entities(&self.map, task, &unit_ids);
            },
            GameEvent::InsertUnit { location, team_id, unit_type } => {
                if -COORD_LIMIT <= location.x && location.x <= COORD_LIMIT && -COORD_LIMIT
                    <= location.y && location.y <= COORD_LIMIT && self.entity_holder.id_counter()
                    < u32::MAX {
                    self.entity_holder.spawn_entity(location.x, location.y, team_id, unit_type);
                }
            },
            GameEvent::SetMapPoint { location, ground_type } => {
                self.map.set(location.0, location.1, ground_type);
            },
            GameEvent::AddBuilding { location } => {
                if location.0 <= i32::MAX - BUILDING_SIZE && location.1 <= i32::MAX - BUILDING_SIZE {
                    self.entity_holder.add_new_building(&mut self.map, location, 0);
                }
            },
        }
    }

    /// Advances one tick: the units act (see `tick_outcome`), then the
    /// queued orders are applied, the most recently dispatched first (see
    /// `drained`), and the queue is left empty.
    pub fn do_tick(&mut self)
        requires
            old(self).wf(),
            old(self).tick_spec() < u32::MAX,
        ensures
            final(self).wf(),
            final(self).tick_spec() == old(self).tick_spec() + 1,
            final(self).events_spec().len() == 0,
            exists|mid: EntityHolder, states: Seq<(GameMap, EntityHolder)>|
                tick_outcome(old(self).map_spec(), old(self).holder_spec(), mid) && #[trigger] drained(
                    old(self).map_spec(),
                    mid,
                    old(self).events_spec(),
                    states,
                    final(self).map_spec(),
                    final(self).holder_spec(),
                ),
    {
        self.tick = self.tick + 1;
        self.entity_holder.entity_ai(&self.map, self.tick);
        let ghost mid = self.entity_holder;
        let ghost events = self.event_log@;
        let ghost m0 = self.map;
        assert(tick_outcome(old(self).map_spec(), old(self).holder_spec(), mid));
        let ghost mut states: Seq<(GameMap, EntityHolder)> = seq![(m0, mid)];
        while self.event_log.len() > 0
            invariant
                self.wf(),
                self.tick == old(self).tick + 1,
                events == old(self).event_log@,
                self.event_log@ == events.subrange(0, events.len() - (states.len() - 1)),
                1 <= states.len() <= events.len() + 1,
                states[0] == (m0, mid),
                states.last() == (self.map, self.entity_holder),
                forall|i: int|
                    0 <= i < states.len() - 1 ==> event_outcome(
                        (#[trigger] states[i]).0,
                        states[i].1,
                        events[events.len() - 1 - i],
                        states[i + 1].0,
                        states[i + 1].1,
                    ),
            decreases self.event_log@.len(),
        {
            let ghost j = states.len() - 1;
            match self.event_log.pop() {
                Some(game_event) => {
                    assert(game_event == events[events.len() - 1 - j]);
                    let ghost before = (self.map, self.entity_holder);
                    self.apply_event(game_event);
                    proof {
                        let ns = states.push((self.map, self.entity_holder));
                        assert forall|i: int| 0 <= i < ns.len() - 1 implies event_outcome(
                            (#[trigger] ns[i]).0,
                            ns[i].1,
                            events[events.len() - 1 - i],
                            ns[i + 1].0,
                            ns[i + 1].1,
                        ) by {
                            if i < j {
                                assert(ns[i] == states[i]);
                                assert(ns[i + 1] == states[i + 1]);
                            } else {
                                assert(ns[i] == before);
                            }
                        }
                        states = ns;
                        assert(self.event_log@ =~= events.subrange(0, events.len() - (states.len() - 1)));
                    }
                },
                None => {},
            }
        }
        assert(states.len() == events.len() + 1);
        assert(drained(m0, mid, events, states, self.map, self.entity_holder));
        assert(m0 == old(self).map_spec());
        assert(events == old(self).events_spec());
        assert(drained(old(self).map_spec(), mid, old(self).events_spec(), states, self.map_spec(), self.holder_spec()));
    }
}

} // verus!
