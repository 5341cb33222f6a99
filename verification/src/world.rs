use std::collections::{HashMap, HashSet};
use vstd::prelude::*;

use crate::container::{has_key, unique_keys, with_entry, without_key};
use crate::message::RelationMessage;
use crate::related::Related;

verus! {

broadcast use vstd::std_specs::hash::group_hash_axioms;

/// One of the two sides of a relation. Each side is held by entities in a
/// component of its own, unless the relation is symmetric, in which case both
/// sides are the same component.
#[derive(Clone, Copy, Debug, PartialEq, Eq, Structural)]
pub enum Side {
    Source,
    Target,
}

/// The other side.
pub open spec fn flip(side: Side) -> Side {
    match side {
        Side::Source => Side::Target,
        Side::Target => Side::Source,
    }
}

/// A change to make to the entities of a world, or a message to emit.
#[derive(Clone, Debug, PartialEq, Eq)]
pub enum RelationAction<T> {
    /// Give `entity` a new `side` component that relates only `other`, with `data`.
    Create { side: Side, entity: u64, other: u64, data: T },
    /// Relate `other` with `data` in the existing `side` component of `entity`.
    Push { side: Side, entity: u64, other: u64, data: T },
    /// Remove `other` from the `side` component of `entity`, which keeps others.
    Detach { side: Side, entity: u64, other: u64 },
    /// Remove the `side` component of `entity`.
    Drop { side: Side, entity: u64 },
    /// Emit a message.
    Notify(RelationMessage),
}

/// The entity whose component an action changes.
pub open spec fn action_entity<T>(action: RelationAction<T>) -> u64 {
    match action {
        RelationAction::Create { entity, .. } => entity,
        RelationAction::Push { entity, .. } => entity,
        RelationAction::Detach { entity, .. } => entity,
        RelationAction::Drop { entity, .. } => entity,
        RelationAction::Notify(_) => 0,
    }
}

/// `action` makes its entity relate `a` on `side`.
pub open spec fn adds_link_to<T>(action: RelationAction<T>, side: Side, a: u64) -> bool {
    match action {
        RelationAction::Create { side: s, other, .. } => s == side && other == a,
        RelationAction::Push { side: s, other, .. } => s == side && other == a,
        _ => false,
    }
}

/// `action` makes its entity stop relating `a` on `side`.
pub open spec fn removes_link_to<T>(action: RelationAction<T>, side: Side, a: u64) -> bool {
    match action {
        RelationAction::Drop { side: s, .. } => s == side,
        RelationAction::Detach { side: s, other, .. } => s == side && other == a,
        _ => false,
    }
}

/// `actions` is a run of pairs: a change that makes an entity `b` relate `a` on
/// `side`, followed by the message `Added(a, b)`.
pub open spec fn reports_additions<T>(actions: Seq<RelationAction<T>>, side: Side, a: u64) -> bool {
    &&& actions.len() % 2 == 0
    &&& forall|i: int|
        #![trigger actions[i]]
        0 <= i < actions.len() ==> if i % 2 == 0 {
            adds_link_to(actions[i], side, a) && actions[i + 1] == RelationAction::<T>::Notify(
                RelationMessage::Added(a, action_entity(actions[i])),
            )
        } else {
            actions[i] is Notify
        }
}

/// `actions` is a run of pairs: a change that makes an entity `b` stop relating
/// `a` on `side`, followed by the message `Removed(a, b)`.
pub open spec fn reports_removals<T>(actions: Seq<RelationAction<T>>, side: Side, a: u64) -> bool {
    &&& actions.len() % 2 == 0
    &&& forall|i: int|
        #![trigger actions[i]]
        0 <= i < actions.len() ==> if i % 2 == 0 {
            removes_link_to(actions[i], side, a) && actions[i + 1] == RelationAction::<T>::Notify(
                RelationMessage::Removed(a, action_entity(actions[i])),
            )
        } else {
            actions[i] is Notify
        }
}

/// The changes of `actions` (at even positions) concern distinct entities.
pub open spec fn changes_distinct_entities<T>(actions: Seq<RelationAction<T>>) -> bool {
    forall|i: int, j: int|
        #![trigger actions[i], actions[j]]
        0 <= i < actions.len() && 0 <= j < actions.len() && i % 2 == 0 && j % 2 == 0 && i != j
            ==> action_entity(actions[i]) != action_entity(actions[j])
}

/// `copy` is `base` with any relation data replaced by a clone of it.
pub open spec fn action_cloned<T: Clone>(base: RelationAction<T>, copy: RelationAction<T>) -> bool {
    match (base, copy) {
        (
            RelationAction::Create { side: s1, entity: e1, other: o1, data: d1 },
            RelationAction::Create { side: s2, entity: e2, other: o2, data: d2 },
        ) => s1 == s2 && e1 == e2 && o1 == o2 && cloned(d1, d2),
        (
            RelationAction::Push { side: s1, entity: e1, other: o1, data: d1 },
            RelationAction::Push { side: s2, entity: e2, other: o2, data: d2 },
        ) => s1 == s2 && e1 == e2 && o1 == o2 && cloned(d1, d2),
        _ => base == copy,
    }
}

/// `copies` is `bases`, action by action, up to clones of the relation data.
pub open spec fn actions_cloned<T: Clone>(
    bases: Seq<RelationAction<T>>,
    copies: Seq<RelationAction<T>>,
) -> bool {
    &&& copies.len() == bases.len()
    &&& forall|i: int|
        #![trigger copies[i]]
        0 <= i < copies.len() ==> action_cloned(bases[i], copies[i])
}

/// What the relation logic sees of a world: which entities exist, whether both
/// sides are the same component, and the relation data held on each side.
#[verifier::ext_equal]
pub struct WorldView<T> {
    pub symmetric: bool,
    pub alive: Set<u64>,
    pub source: Map<u64, Seq<(u64, T)>>,
    pub target: Map<u64, Seq<(u64, T)>>,
}

impl<T> WorldView<T> {
    /// The side whose component mirrors `side`.
    pub open spec fn opposite(self, side: Side) -> Side {
        if self.symmetric {
            side
        } else {
            flip(side)
        }
    }

    /// The `side` components, by entity.
    pub open spec fn components(self, side: Side) -> Map<u64, Seq<(u64, T)>> {
        match side {
            Side::Source => self.source,
            Side::Target => self.target,
        }
    }

    /// The `side` component of `entity`, if it has one.
    pub open spec fn related(self, side: Side, entity: u64) -> Option<Seq<(u64, T)>> {
        if self.components(side).contains_key(entity) {
            Some(self.components(side)[entity])
        } else {
            None
        }
    }

    /// The `side` component of `x` relates `y`.
    pub open spec fn links(self, side: Side, x: u64, y: u64) -> bool {
        self.components(side).contains_key(x) && has_key(self.components(side)[x], y)
    }

    /// Every relation is held on both sides: `x` relates `y` on a side exactly when
    /// `y` relates `x` on the opposite side.
    pub open spec fn mirrored(self) -> bool {
        forall|side: Side, x: u64, y: u64|
            #![trigger self.links(side, x, y)]
            self.links(side, x, y) <==> self.links(self.opposite(side), y, x)
    }

    /// Every relation is held on both sides, except possibly those held by the
    /// components named in `pending`, whose work has not run yet.
    pub open spec fn mirrored_except(self, pending: Set<(Side, u64)>) -> bool {
        forall|side: Side, x: u64, y: u64|
            #![trigger self.links(side, x, y)]
            self.links(side, x, y) ==> self.links(self.opposite(side), y, x) || pending.contains(
                (side, x),
            )
    }

    /// Each component relates each entity at most once.
    pub open spec fn components_unique(self) -> bool {
        forall|side: Side, x: u64|
            #![trigger self.components(side)[x]]
            self.components(side).contains_key(x) ==> unique_keys(self.components(side)[x])
    }

    /// Components relate only living entities, each at most once.
    pub open spec fn well_formed(self) -> bool {
        &&& forall|side: Side, x: u64, y: u64|
            #![trigger self.links(side, x, y)]
            self.links(side, x, y) ==> self.alive.contains(y)
        &&& self.components_unique()
    }

    /// The world with the `side` component of `entity` set to `entries`.
    pub open spec fn with_related(self, side: Side, entity: u64, entries: Seq<(u64, T)>) -> Self {
        match side {
            Side::Source => WorldView { source: self.source.insert(entity, entries), ..self },
            Side::Target => WorldView { target: self.target.insert(entity, entries), ..self },
        }
    }

    /// The world without the `side` component of `entity`.
    pub open spec fn without_related(self, side: Side, entity: u64) -> Self {
        match side {
            Side::Source => WorldView { source: self.source.remove(entity), ..self },
            Side::Target => WorldView { target: self.target.remove(entity), ..self },
        }
    }

    /// The world after `action`.
    pub open spec fn apply(self, action: RelationAction<T>) -> Self {
        match action {
            RelationAction::Create { side, entity, other, data } => self.with_related(
                side,
                entity,
                seq![(other, data)],
            ),
            RelationAction::Push { side, entity, other, data } => match self.related(
                side,
                entity,
            ) {
                Some(entries) => self.with_related(side, entity, with_entry(entries, other, data)),
                None => self,
            },
            RelationAction::Detach { side, entity, other } => match self.related(side, entity) {
                Some(entries) => self.with_related(side, entity, without_key(entries, other)),
                None => self,
            },
            RelationAction::Drop { side, entity } => self.without_related(side, entity),
            RelationAction::Notify(_) => self,
        }
    }

    /// The world after `actions`, in order.
    pub open spec fn apply_all(self, actions: Seq<RelationAction<T>>) -> Self
        decreases actions.len(),
    {
        if actions.len() == 0 {
            self
        } else {
            self.apply(actions[0]).apply_all(actions.drop_first())
        }
    }
}

/// A world of entities that hold the two sides of one relation.
pub struct RelationWorld<T> {
    symmetric: bool,
    alive: HashSet<u64>,
    source: HashMap<u64, Related<T>>,
    target: HashMap<u64, Related<T>>,
}

impl<T> View for RelationWorld<T> {
    type V = WorldView<T>;

    closed spec fn view(&self) -> WorldView<T> {
        WorldView {
            symmetric: self.symmetric,
            alive: self.alive@,
            source: self.source@.map_values(|r: Related<T>| r.entries()),
            target: self.target@.map_values(|r: Related<T>| r.entries()),
        }
    }
}

impl<T> RelationWorld<T> {
    #[verifier::type_invariant]
    spec fn components_stay_unique(&self) -> bool {
        &&& forall|x: u64|
            #[trigger] self.source@.contains_key(x) ==> unique_keys(self.source@[x].entries())
        &&& forall|x: u64|
            #[trigger] self.target@.contains_key(x) ==> unique_keys(self.target@[x].entries())
    }

    /// A world with no entities. In a symmetric relation each side is its own
    /// opposite.
    pub fn new(symmetric: bool) -> (w: Self)
        ensures
            w@.symmetric == symmetric,
            w@.alive == Set::<u64>::empty(),
            w@.source == Map::<u64, Seq<(u64, T)>>::empty(),
            w@.target == Map::<u64, Seq<(u64, T)>>::empty(),
            w@.components_unique(),
    {
        let source: HashMap<u64, Related<T>> = HashMap::new();
        let target: HashMap<u64, Related<T>> = HashMap::new();
        assert(source@.map_values(|r: Related<T>| r.entries()) =~= Map::<
            u64,
            Seq<(u64, T)>,
        >::empty());
        assert(target@.map_values(|r: Related<T>| r.entries()) =~= Map::<
            u64,
            Seq<(u64, T)>,
        >::empty());
        RelationWorld { symmetric, alive: HashSet::new(), source, target }
    }

    /// Whether both sides are the same component.
    pub fn is_symmetric(&self) -> (r: bool)
        ensures
            r == self@.symmetric,
    {
        self.symmetric
    }

    /// The side whose component mirrors `side`.
    pub fn opposite(&self, side: Side) -> (r: Side)
        ensures
            r == self@.opposite(side),
    {
        if self.symmetric {
            side
        } else {
            match side {
                Side::Source => Side::Target,
                Side::Target => Side::Source,
            }
        }
    }

    /// Brings `entity` to life.
    pub fn spawn(&mut self, entity: u64)
        ensures
            final(self)@ == (WorldView { alive: old(self)@.alive.insert(entity), ..old(self)@ }),
            final(self)@.components_unique(),
    {
        proof {
            use_type_invariant(&*self);
        }
        let mut alive = HashSet::new();
        std::mem::swap(&mut alive, &mut self.alive);
        alive.insert(entity);
        self.alive = alive;
    }

    /// Whether `entity` is alive.
    pub fn is_alive(&self, entity: u64) -> (r: bool)
        ensures
            r == self@.alive.contains(entity),
    {
        self.alive.contains(&entity)
    }

    /// Ends `entity` with both of its components.
    pub fn despawn(&mut self, entity: u64)
        ensures
            final(self)@ == (WorldView {
                alive: old(self)@.alive.remove(entity),
                ..old(self)@.without_related(Side::Source, entity).without_related(
                    Side::Target,
                    entity,
                )
            }),
            final(self)@.components_unique(),
    {
        self.take_related(Side::Source, entity);
        self.take_related(Side::Target, entity);
        proof {
            use_type_invariant(&*self);
        }
        let mut alive = HashSet::new();
        std::mem::swap(&mut alive, &mut self.alive);
        alive.remove(&entity);
        self.alive = alive;
    }

    /// The `side` component of `entity`.
    pub fn get_related(&self, side: Side, entity: u64) -> (r: Option<&Related<T>>)
        ensures
            match r {
                Some(c) => self@.related(side, entity) == Some(c.entries()),
                None => self@.related(side, entity) is None,
            },
    {
        match side {
            Side::Source => self.source.get(&entity),
            Side::Target => self.target.get(&entity),
        }
    }

    /// Sets the `side` component of `entity`, giving back the one it replaces.
    pub fn set_related(&mut self, side: Side, entity: u64, related: Related<T>) -> (r: Option<
        Related<T>,
    >)
        ensures
            final(self)@ == old(self)@.with_related(side, entity, related.entries()),
            final(self)@.components_unique(),
            match r {
                Some(c) => old(self)@.related(side, entity) == Some(c.entries()),
                None => old(self)@.related(side, entity) is None,
            },
    {
        proof {
            use_type_invariant(&*self);
        }
        related.keys_unique();
        let ghost entries = related.entries();
        let ghost before = self@;
        let mut store = HashMap::new();
        assert(store@.map_values(|r: Related<T>| r.entries()) =~= Map::<
            u64,
            Seq<(u64, T)>,
        >::empty());
        match side {
            Side::Source => {
                std::mem::swap(&mut store, &mut self.source);
            },
            Side::Target => {
                std::mem::swap(&mut store, &mut self.target);
            },
        }
        let r = store.insert(entity, related);
        let ghost after = store@.map_values(|r: Related<T>| r.entries());
        assert(after =~= before.components(side).insert(entity, entries));
        assert forall|x: u64| #[trigger] after.contains_key(x) implies unique_keys(after[x]) by {
            if x != entity {
                assert(before.components(side).contains_key(x));
                assert(before.components(side)[x] == after[x]);
            }
        }
        match side {
            Side::Source => {
                self.source = store;
            },
            Side::Target => {
                self.target = store;
            },
        }
        assert(self@ =~= before.with_related(side, entity, entries));
        r
    }

    /// Removes the `side` component of `entity`, giving it back.
    pub fn take_related(&mut self, side: Side, entity: u64) -> (r: Option<Related<T>>)
        ensures
            final(self)@ == old(self)@.without_related(side, entity),
            final(self)@.components_unique(),
            match r {
                Some(c) => old(self)@.related(side, entity) == Some(c.entries()),
                None => old(self)@.related(side, entity) is None,
            },
    {
        proof {
            use_type_invariant(&*self);
        }
        let ghost before = self@;
        let mut store = HashMap::new();
        assert(store@.map_values(|r: Related<T>| r.entries()) =~= Map::<
            u64,
            Seq<(u64, T)>,
        >::empty());
        match side {
            Side::Source => {
                std::mem::swap(&mut store, &mut self.source);
            },
            Side::Target => {
                std::mem::swap(&mut store, &mut self.target);
            },
        }
        let r = store.remove(&entity);
        let ghost after = store@.map_values(|r: Related<T>| r.entries());
        assert(after =~= before.components(side).remove(entity));
        assert forall|x: u64| #[trigger] after.contains_key(x) implies unique_keys(after[x]) by {
            assert(before.components(side).contains_key(x));
            assert(before.components(side)[x] == after[x]);
        }
        match side {
            Side::Source => {
                self.source = store;
            },
            Side::Target => {
                self.target = store;
            },
        }
        assert(self@ =~= before.without_related(side, entity));
        r
    }

    /// Carries out one action.
    pub fn apply_action(&mut self, action: RelationAction<T>)
        ensures
            final(self)@ == old(self)@.apply(action),
            final(self)@.components_unique(),
    {
        proof {
            use_type_invariant(&*self);
        }
        match action {
            RelationAction::Create { side, entity, other, data } => {
                let related = Related::from((other, data));
                self.set_related(side, entity, related);
            },
            RelationAction::Push { side, entity, other, data } => {
                match self.take_related(side, entity) {
                    Some(mut related) => {
                        related.push(other, data);
                        self.set_related(side, entity, related);
                        proof {
                            assert(self@ =~= old(self)@.apply(action));
                        }
                    },
                    None => {},
                }
            },
            RelationAction::Detach { side, entity, other } => {
                match self.take_related(side, entity) {
                    Some(mut related) => {
                        related.remove(other);
                        self.set_related(side, entity, related);
                        proof {
                            assert(self@ =~= old(self)@.apply(action));
                        }
                    },
                    None => {},
                }
            },
            RelationAction::Drop { side, entity } => {
                self.take_related(side, entity);
            },
            RelationAction::Notify(_) => {},
        }
    }

    /// Carries out `actions` in order.
    pub fn apply(&mut self, actions: Vec<RelationAction<T>>)
        ensures
            final(self)@ == old(self)@.apply_all(actions@),
            final(self)@.components_unique(),
    {
        proof {
            use_type_invariant(&*self);
        }
        let mut rest = actions;
        while rest.len() > 0
            invariant
                self@.apply_all(rest@) == old(self)@.apply_all(actions@),
                self@.components_unique(),
            decreases rest@.len(),
        {
            let ghost before = rest@;
            let action = rest.remove(0);
            assert(rest@ =~= before.drop_first());
            self.apply_action(action);
        }
    }
}

} // verus!
