use vstd::prelude::*;
use vstd::std_specs::cmp::PartialEqSpec;

use crate::container::{
    collect_entries, entries_cloned, has_key, same_entries, unique_keys, value_of, with_entry, without_key,
    EntityContainer, EntityMap,
};
use crate::message::RelationMessage;
use crate::laws::{lemma_associate_pairs, lemma_cloned_reports_additions, lemma_disassociate_pairs};
use crate::world::{
    actions_cloned, changes_distinct_entities, reports_additions, reports_removals,
    RelationAction, RelationWorld, Side, WorldView,
};

verus! {

/// The relation data held for one side of a relationship by one entity: the
/// entities it is related to, each with the data of that relation.
#[derive(Debug)]
pub struct Related<T> {
    container: EntityMap<T>,
}

impl<T> Related<T> {
    /// The related entities with their data, in iteration order.
    pub closed spec fn entries(&self) -> Seq<(u64, T)> {
        self.container.entries()
    }

    /// Wraps a container.
    pub fn new(container: EntityMap<T>) -> (r: Self)
        ensures
            r.entries() == container.entries(),
    {
        Related { container }
    }

    /// Relates the single entity `entity.0` with data `entity.1`.
    pub fn from(entity: (u64, T)) -> (r: Self)
        ensures
            r.entries() == seq![entity],
    {
        let (e, data) = entity;
        let r = Related { container: EntityMap::new(e, data) };
        assert(r.entries() =~= seq![entity]);
        r
    }

    /// Relates the items in turn; a later item for an entity replaces the data of
    /// an earlier one.
    pub fn from_iter(items: Vec<(u64, T)>) -> (r: Self)
        ensures
            r.entries() == collect_entries(items@),
    {
        Related { container: EntityMap::from_entries(items) }
    }

    /// The related entities, each with a reference to its data, in iteration order.
    pub fn iter(&self) -> (r: Vec<(u64, &T)>)
        ensures
            r@.len() == self.entries().len(),
            forall|i: int|
                #![trigger r@[i]]
                0 <= i < r@.len() ==> r@[i].0 == self.entries()[i].0 && *r@[i].1
                    == self.entries()[i].1,
    {
        self.container.iter()
    }

    /// Whether `entity` is related.
    pub fn contains(&self, entity: u64) -> (r: bool)
        ensures
            r == has_key(self.entries(), entity),
    {
        self.container.contains(entity)
    }

    /// The data of the relation with `entity`.
    pub fn get(&self, entity: u64) -> (r: Option<&T>)
        ensures
            r is Some == has_key(self.entries(), entity),
            r matches Some(v) ==> value_of(self.entries(), entity) == Some(*v),
    {
        self.container.get(entity)
    }

    /// Whether no entity is related.
    pub fn is_empty(&self) -> (r: bool)
        ensures
            r == (self.entries().len() == 0),
    {
        self.container.is_empty()
    }

    /// The number of related entities.
    pub fn len(&self) -> (r: usize)
        ensures
            r == self.entries().len(),
    {
        self.container.len()
    }

    /// The related entity at position `index`, with its data.
    pub fn entry(&self, index: usize) -> (r: (u64, &T))
        requires
            index < self.entries().len(),
        ensures
            r.0 == self.entries()[index as int].0,
            *r.1 == self.entries()[index as int].1,
    {
        self.container.entry(index)
    }

    /// Relates `entity` with `data`, replacing the data it had.
    pub fn push(&mut self, entity: u64, data: T)
        ensures
            final(self).entries() == with_entry(old(self).entries(), entity, data),
    {
        self.container.push(entity, data);
    }

    /// Removes `entity`, giving back its data when it was related.
    pub fn remove(&mut self, entity: u64) -> (r: Option<T>)
        ensures
            final(self).entries() == without_key(old(self).entries(), entity),
            r == value_of(old(self).entries(), entity),
    {
        self.container.remove(entity)
    }

    /// Each entity is related at most once.
    pub(crate) fn keys_unique(&self)
        ensures
            unique_keys(self.entries()),
    {
        self.container.keys_unique();
    }

    /// The container.
    pub fn container(&self) -> (r: &EntityMap<T>)
        ensures
            r.entries() == self.entries(),
    {
        &self.container
    }

}

impl<T: Clone> Clone for Related<T> {
    fn clone(&self) -> (r: Self)
        ensures
            entries_cloned(self.entries(), r.entries()),
    {
        Related { container: self.container.clone() }
    }
}

impl<T: PartialEq> PartialEq for Related<T> {
    fn eq(&self, other: &Self) -> (r: bool) {
        self.container == other.container
    }
}

impl<T: PartialEq> vstd::std_specs::cmp::PartialEqSpecImpl for Related<T> {
    open spec fn obeys_eq_spec() -> bool {
        T::obeys_eq_spec()
    }

    open spec fn eq_spec(&self, other: &Self) -> bool {
        same_entries(self.entries(), other.entries())
    }
}

impl<T: Eq> Eq for Related<T> {

}

/// The actions that making `a`'s `side` relations mirrored takes, for the related
/// entities in `entries` in order: each living `b` that does not relate `a` back on
/// the opposite side gets `a` with the same data, and an `Added(a, b)` message
/// follows. Entities that are not alive are passed over.
pub open spec fn associate_entries<T>(
    w: WorldView<T>,
    side: Side,
    a: u64,
    entries: Seq<(u64, T)>,
) -> Seq<RelationAction<T>>
    decreases entries.len(),
{
    if entries.len() == 0 {
        Seq::empty()
    } else {
        let b = entries[0].0;
        let data = entries[0].1;
        let opp = w.opposite(side);
        let rest = associate_entries(w, side, a, entries.drop_first());
        if !w.alive.contains(b) || w.links(opp, b, a) {
            rest
        } else {
            let change = if w.components(opp).contains_key(b) {
                RelationAction::Push { side: opp, entity: b, other: a, data }
            } else {
                RelationAction::Create { side: opp, entity: b, other: a, data }
            };
            seq![change, RelationAction::Notify(RelationMessage::Added(a, b))] + rest
        }
    }
}

/// The actions that follow the insertion of `a`'s `side` component: nothing when
/// `a` no longer holds one, otherwise `associate_entries` over its relations.
pub open spec fn associate_actions<T>(w: WorldView<T>, side: Side, a: u64) -> Seq<RelationAction<T>> {
    match w.related(side, a) {
        Some(entries) => associate_entries(w, side, a, entries),
        None => Seq::empty(),
    }
}

/// The actions that follow the replacement or removal of `a`'s `side` component,
/// which related the entities in `old`: each living `b` of `old` that still relates
/// `a` on the opposite side although `a` no longer relates `b` loses `a` (and its
/// component, when nothing else is left in it), and a `Removed(a, b)` message
/// follows. Entities that are not alive are passed over.
pub open spec fn disassociate_actions<T>(
    w: WorldView<T>,
    side: Side,
    a: u64,
    old: Seq<(u64, T)>,
) -> Seq<RelationAction<T>>
    decreases old.len(),
{
    if old.len() == 0 {
        Seq::empty()
    } else {
        let b = old[0].0;
        let opp = w.opposite(side);
        let rest = disassociate_actions(w, side, a, old.drop_first());
        if w.alive.contains(b) && w.links(opp, b, a) && !w.links(side, a, b) {
            let change = if without_key(w.components(opp)[b], a).len() == 0 {
                RelationAction::Drop { side: opp, entity: b }
            } else {
                RelationAction::Detach { side: opp, entity: b, other: a }
            };
            seq![change, RelationAction::Notify(RelationMessage::Removed(a, b))] + rest
        } else {
            rest
        }
    }
}

/// The work that follows the insertion of `a`'s `side` component: every entity it
/// relates that is alive is made to relate `a` back, with a clone of the relation
/// data.
pub fn associate<T: Clone>(world: &RelationWorld<T>, side: Side, a: u64) -> (actions: Vec<
    RelationAction<T>,
>)
    ensures
        actions_cloned(associate_actions(world@, side, a), actions@),
        reports_additions(actions@, world@.opposite(side), a),
        changes_distinct_entities(actions@),
{
    let a_related = match world.get_related(side, a) {
        Some(r) => r,
        None => {
            return Vec::new();
        },
    };
    let ghost w = world@;
    let ghost entries = a_related.entries();
    a_related.keys_unique();
    let opp = world.opposite(side);
    let mut actions: Vec<RelationAction<T>> = Vec::new();
    let ghost mut done: Seq<RelationAction<T>> = Seq::empty();
    let n = a_related.len();
    let mut i: usize = 0;
    assert(entries.skip(0) =~= entries);
    assert(done + associate_entries(w, side, a, entries.skip(0)) =~= associate_entries(
        w,
        side,
        a,
        entries,
    ));
    while i < n
        invariant
            n == entries.len(),
            i <= n,
            entries == a_related.entries(),
            w == world@,
            opp == w.opposite(side),
            associate_actions(w, side, a) == associate_entries(w, side, a, entries),
            actions_cloned(done, actions@),
            done + associate_entries(w, side, a, entries.skip(i as int)) == associate_entries(
                w,
                side,
                a,
                entries,
            ),
        decreases n - i,
    {
        let (b, data) = a_related.entry(i);
        let ghost tail = entries.skip(i as int);
        proof {
            assert(tail[0] == entries[i as int]);
            assert(tail.drop_first() =~= entries.skip(i + 1));
        }
        if world.is_alive(b) {
            match world.get_related(opp, b) {
                Some(b_related) => {
                    if !b_related.contains(a) {
                        let copy = data.clone();
                        let message = RelationMessage::Added(a, b);
                        actions.push(RelationAction::Push { side: opp, entity: b, other: a, data: copy });
                        actions.push(RelationAction::Notify(message));
                        proof {
                            let step = seq![
                                RelationAction::Push { side: opp, entity: b, other: a, data: *data },
                                RelationAction::Notify(message),
                            ];
                            assert(done + step + associate_entries(w, side, a, entries.skip(i + 1))
                                =~= done + associate_entries(w, side, a, tail));
                            done = done + step;
                        }
                    } else {
                        proof {
                            assert(w.links(opp, b, a));
                        }
                    }
                },
                None => {
                    let copy = data.clone();
                    let message = RelationMessage::Added(a, b);
                    actions.push(RelationAction::Create { side: opp, entity: b, other: a, data: copy });
                    actions.push(RelationAction::Notify(message));
                    proof {
                        let step = seq![
                            RelationAction::Create { side: opp, entity: b, other: a, data: *data },
                            RelationAction::Notify(message),
                        ];
                        assert(done + step + associate_entries(w, side, a, entries.skip(i + 1))
                            =~= done + associate_entries(w, side, a, tail));
                        done = done + step;
                    }
                },
            }
        }
        i = i + 1;
    }
    proof {
        assert(entries.skip(n as int) =~= Seq::<(u64, T)>::empty());
        assert(done + Seq::<RelationAction<T>>::empty() =~= done);
        lemma_associate_pairs(w, side, a, entries);
        lemma_cloned_reports_additions(associate_actions(w, side, a), actions@, opp, a);
    }
    actions
}

/// The work that follows the replacement or removal of `a`'s `side` component,
/// which related `old`: every entity of `old` that `a` no longer relates stops
/// relating `a` back; entities that are not alive are passed over.
pub fn disassociate<T>(world: &RelationWorld<T>, side: Side, a: u64, old: &Related<T>) -> (actions:
    Vec<RelationAction<T>>)
    ensures
        actions@ == disassociate_actions(world@, side, a, old.entries()),
        reports_removals(actions@, world@.opposite(side), a),
        changes_distinct_entities(actions@),
{
    old.keys_unique();
    proof {
        lemma_disassociate_pairs(world@, side, a, old.entries());
    }
    let ghost w = world@;
    let ghost entries = old.entries();
    let opp = world.opposite(side);
    let mut actions: Vec<RelationAction<T>> = Vec::new();
    let n = old.len();
    let mut i: usize = 0;
    assert(entries.skip(0) =~= entries);
    assert(actions@ + disassociate_actions(w, side, a, entries.skip(0)) =~= disassociate_actions(
        w,
        side,
        a,
        entries,
    ));
    while i < n
        invariant
            n == entries.len(),
            i <= n,
            entries == old.entries(),
            w == world@,
            opp == w.opposite(side),
            actions@ + disassociate_actions(w, side, a, entries.skip(i as int))
                == disassociate_actions(w, side, a, entries),
        decreases n - i,
    {
        let (b, _) = old.entry(i);
        let ghost tail = entries.skip(i as int);
        proof {
            assert(tail[0].0 == b);
            assert(tail.drop_first() =~= entries.skip(i + 1));
        }
        let a_points_to_b = match world.get_related(side, a) {
            Some(a_related) => a_related.contains(b),
            None => false,
        };
        if world.is_alive(b) {
            match world.get_related(opp, b) {
                Some(b_related) => {
                    if b_related.contains(a) && !a_points_to_b {
                        let ghost before = actions@;
                        let change = if b_related.len() == 1 {
                            RelationAction::Drop { side: opp, entity: b }
                        } else {
                            RelationAction::Detach { side: opp, entity: b, other: a }
                        };
                        proof {
                            let r = b_related.entries();
                            let k = choose|k: int| #![trigger r[k]] 0 <= k < r.len() && r[k].0 == a;
                            assert(0 <= k < r.len() && r[k].0 == a);
                            assert(without_key(r, a).len() == r.len() - 1);
                        }
                        let message = RelationMessage::Removed(a, b);
                        actions.push(change);
                        actions.push(RelationAction::Notify(message));
                        proof {
                            assert(actions@ + disassociate_actions(w, side, a, entries.skip(i + 1))
                                =~= before + disassociate_actions(w, side, a, tail));
                        }
                    }
                },
                None => {},
            }
        }
        i = i + 1;
    }
    proof {
        assert(entries.skip(n as int) =~= Seq::<(u64, T)>::empty());
        assert(actions@ + Seq::<RelationAction<T>>::empty() =~= actions@);
    }
    actions
}

} // verus!
