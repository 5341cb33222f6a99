use evergreen_relations::container::EntityContainer;
use evergreen_relations::message::RelationMessage;
use evergreen_relations::related::{associate, disassociate, Related};
use evergreen_relations::world::{RelationAction, RelationWorld, Side};
use std::collections::VecDeque;

/// Work queued by the component hooks, run when the world is flushed.
enum Command<T> {
    Associate(Side, u64),
    Disassociate(Side, u64, Related<T>),
}

/// A world together with the hooks that follow insertion, replacement and removal
/// of a component: the insertion hook queues `associate`; the replacement hook
/// captures the old component and queues `disassociate`; a removal fires both the
/// replacement and the removal hooks, each queueing `disassociate`.
struct Hooked<T> {
    world: RelationWorld<T>,
    queue: VecDeque<Command<T>>,
    messages: Vec<RelationMessage>,
}

impl<T: Clone> Hooked<T> {
    fn new(symmetric: bool) -> Self {
        Hooked { world: RelationWorld::new(symmetric), queue: VecDeque::new(), messages: Vec::new() }
    }

    fn spawn(&mut self, entity: u64) -> u64 {
        self.world.spawn(entity);
        entity
    }

    fn insert(&mut self, side: Side, entity: u64, related: Related<T>) {
        if let Some(old) = self.world.set_related(side, entity, related) {
            self.queue.push_back(Command::Disassociate(side, entity, old));
        }
        self.queue.push_back(Command::Associate(side, entity));
    }

    fn remove(&mut self, side: Side, entity: u64) {
        if let Some(old) = self.world.take_related(side, entity) {
            self.queue.push_back(Command::Disassociate(side, entity, old.clone()));
            self.queue.push_back(Command::Disassociate(side, entity, old));
        }
    }

    fn perform(&mut self, action: RelationAction<T>) {
        match action {
            RelationAction::Create { side, entity, other, data } => {
                self.insert(side, entity, Related::from((other, data)))
            }
            RelationAction::Push { side, entity, other, data } => {
                let mut related = self.world.get_related(side, entity).unwrap().clone();
                related.push(other, data);
                self.insert(side, entity, related);
            }
            RelationAction::Detach { side, entity, other } => {
                let mut related = self.world.get_related(side, entity).unwrap().clone();
                related.remove(other);
                self.insert(side, entity, related);
            }
            RelationAction::Drop { side, entity } => self.remove(side, entity),
            RelationAction::Notify(message) => self.messages.push(message),
        }
    }

    fn flush(&mut self) {
        while let Some(command) = self.queue.pop_front() {
            let actions = match command {
                Command::Associate(side, entity) => associate(&self.world, side, entity),
                Command::Disassociate(side, entity, old) => {
                    disassociate(&self.world, side, entity, &old)
                }
            };
            for action in actions {
                self.perform(action);
            }
        }
    }

    fn get(&self, side: Side, entity: u64) -> Option<&Related<T>> {
        self.world.get_related(side, entity)
    }
}

fn friends(entities: &[u64]) -> Related<()> {
    Related::from_iter(entities.iter().map(|&e| (e, ())).collect())
}

#[test]
fn add_remove() {
    let mut world: Hooked<()> = Hooked::new(true);

    let a = world.spawn(1);
    let b = world.spawn(2);
    world.insert(Side::Source, b, friends(&[a]));
    let c = world.spawn(3);
    world.insert(Side::Source, c, friends(&[a, b]));

    world.flush();

    assert_eq!(world.get(Side::Source, a), Some(&friends(&[b, c])));
    assert_eq!(world.get(Side::Source, b), Some(&friends(&[a, c])));
    assert_eq!(world.get(Side::Source, c), Some(&friends(&[a, b])));

    world.remove(Side::Source, b);
    world.flush();

    assert_eq!(world.get(Side::Source, a), Some(&friends(&[c])));
    assert_eq!(world.get(Side::Source, b), None);
    assert_eq!(world.get(Side::Source, c), Some(&friends(&[a])));
}

#[test]
fn add_remove_messages() {
    let mut world: Hooked<()> = Hooked::new(true);
    let a = world.spawn(1);
    let b = world.spawn(2);
    world.insert(Side::Source, b, friends(&[a]));
    let c = world.spawn(3);
    world.insert(Side::Source, c, friends(&[a, b]));
    world.flush();
    assert_eq!(
        world.messages,
        vec![
            RelationMessage::Added(b, a),
            RelationMessage::Added(c, a),
            RelationMessage::Added(c, b),
        ]
    );
    world.messages.clear();
    world.remove(Side::Source, b);
    world.flush();
    assert_eq!(world.messages, vec![RelationMessage::Removed(b, a), RelationMessage::Removed(b, c)]);
}

#[test]
fn replace_keeps_only_new_friends() {
    let mut world: Hooked<()> = Hooked::new(true);
    let a = world.spawn(1);
    let b = world.spawn(2);
    let c = world.spawn(3);
    world.insert(Side::Source, a, friends(&[b]));
    world.flush();
    assert_eq!(world.get(Side::Source, b), Some(&friends(&[a])));

    world.insert(Side::Source, a, friends(&[c]));
    world.flush();
    assert_eq!(world.get(Side::Source, a), Some(&friends(&[c])));
    assert_eq!(world.get(Side::Source, b), None);
    assert_eq!(world.get(Side::Source, c), Some(&friends(&[a])));
}

#[test]
fn parent_and_children_are_mirrored() {
    // Source: the children an entity has; Target: the parent of an entity.
    let mut world: Hooked<u32> = Hooked::new(false);
    let parent = world.spawn(10);
    let first = world.spawn(11);
    let second = world.spawn(12);
    world.insert(Side::Source, parent, Related::from_iter(vec![(first, 7), (second, 9)]));
    world.flush();

    assert_eq!(world.get(Side::Target, first), Some(&Related::from((parent, 7))));
    assert_eq!(world.get(Side::Target, second), Some(&Related::from((parent, 9))));
    assert_eq!(world.get(Side::Source, first), None);
    assert_eq!(world.get(Side::Target, parent), None);

    world.remove(Side::Target, first);
    world.flush();
    assert_eq!(world.get(Side::Source, parent), Some(&Related::from((second, 9))));

    world.remove(Side::Target, second);
    world.flush();
    assert_eq!(world.get(Side::Source, parent), None);
}

#[test]
fn associate_creates_and_pushes_back_links() {
    let mut world: RelationWorld<u32> = RelationWorld::new(false);
    for e in [1, 2, 3] {
        world.spawn(e);
    }
    world.set_related(Side::Target, 3, Related::from((9, 5)));
    world.set_related(Side::Source, 1, Related::from_iter(vec![(2, 4), (3, 6)]));
    let actions = associate(&world, Side::Source, 1);
    assert_eq!(
        actions,
        vec![
            RelationAction::Create { side: Side::Target, entity: 2, other: 1, data: 4 },
            RelationAction::Notify(RelationMessage::Added(1, 2)),
            RelationAction::Push { side: Side::Target, entity: 3, other: 1, data: 6 },
            RelationAction::Notify(RelationMessage::Added(1, 3)),
        ]
    );
    world.apply(actions);
    assert_eq!(world.get_related(Side::Target, 2), Some(&Related::from((1, 4))));
    assert_eq!(
        world.get_related(Side::Target, 3),
        Some(&Related::from_iter(vec![(9, 5), (1, 6)]))
    );
    // Once mirrored, nothing is left to do.
    assert!(associate(&world, Side::Source, 1).is_empty());
}

#[test]
fn associate_skips_entities_that_already_relate_back() {
    let mut world: RelationWorld<()> = RelationWorld::new(true);
    world.spawn(1);
    world.spawn(2);
    world.set_related(Side::Source, 1, Related::from((2, ())));
    world.set_related(Side::Source, 2, Related::from((1, ())));
    assert!(associate(&world, Side::Source, 1).is_empty());
    assert!(associate(&world, Side::Source, 2).is_empty());
}

#[test]
fn associate_without_component_does_nothing() {
    let mut world: RelationWorld<()> = RelationWorld::new(true);
    world.spawn(1);
    assert!(associate(&world, Side::Source, 1).is_empty());
}

#[test]
fn associate_passes_over_missing_entity() {
    let mut world: RelationWorld<()> = RelationWorld::new(true);
    world.spawn(1);
    world.spawn(3);
    world.set_related(Side::Source, 1, friends(&[3, 2, 4]));
    world.spawn(4);
    // 2 was never spawned: it is passed over, and 4 is still reached.
    let actions = associate(&world, Side::Source, 1);
    assert_eq!(
        actions,
        vec![
            RelationAction::Create { side: Side::Source, entity: 3, other: 1, data: () },
            RelationAction::Notify(RelationMessage::Added(1, 3)),
            RelationAction::Create { side: Side::Source, entity: 4, other: 1, data: () },
            RelationAction::Notify(RelationMessage::Added(1, 4)),
        ]
    );
}

#[test]
fn disassociate_detaches_or_drops() {
    let mut world: RelationWorld<()> = RelationWorld::new(true);
    for e in [1, 2, 3, 4] {
        world.spawn(e);
    }
    world.set_related(Side::Source, 2, friends(&[1]));
    world.set_related(Side::Source, 3, friends(&[4, 1]));
    world.set_related(Side::Source, 4, friends(&[3]));
    let old = friends(&[2, 3]);
    let actions = disassociate(&world, Side::Source, 1, &old);
    assert_eq!(
        actions,
        vec![
            RelationAction::Drop { side: Side::Source, entity: 2 },
            RelationAction::Notify(RelationMessage::Removed(1, 2)),
            RelationAction::Detach { side: Side::Source, entity: 3, other: 1 },
            RelationAction::Notify(RelationMessage::Removed(1, 3)),
        ]
    );
    world.apply(actions);
    assert_eq!(world.get_related(Side::Source, 2), None);
    assert_eq!(world.get_related(Side::Source, 3), Some(&friends(&[4])));
}

#[test]
fn disassociate_keeps_entities_still_related() {
    let mut world: RelationWorld<()> = RelationWorld::new(true);
    for e in [1, 2, 3] {
        world.spawn(e);
    }
    world.set_related(Side::Source, 1, friends(&[2]));
    world.set_related(Side::Source, 2, friends(&[1]));
    world.set_related(Side::Source, 3, friends(&[1]));
    let old = friends(&[2, 3]);
    let actions = disassociate(&world, Side::Source, 1, &old);
    assert_eq!(
        actions,
        vec![
            RelationAction::Drop { side: Side::Source, entity: 3 },
            RelationAction::Notify(RelationMessage::Removed(1, 3)),
        ]
    );
}

#[test]
fn disassociate_passes_over_missing_entity() {
    let mut world: RelationWorld<()> = RelationWorld::new(true);
    for e in [1, 2, 3] {
        world.spawn(e);
    }
    world.set_related(Side::Source, 2, friends(&[1]));
    world.set_related(Side::Source, 3, friends(&[1]));
    world.despawn(2);
    let old = friends(&[2, 3]);
    assert_eq!(
        disassociate(&world, Side::Source, 1, &old),
        vec![
            RelationAction::Drop { side: Side::Source, entity: 3 },
            RelationAction::Notify(RelationMessage::Removed(1, 3)),
        ]
    );
}

#[test]
fn removal_after_despawn_still_reaches_later_friends() {
    let mut world: Hooked<()> = Hooked::new(true);
    let a = world.spawn(1);
    let b = world.spawn(2);
    let c = world.spawn(3);
    world.insert(Side::Source, a, friends(&[b, c]));
    world.flush();
    world.world.despawn(b);
    world.remove(Side::Source, a);
    world.flush();
    assert_eq!(world.get(Side::Source, c), None);
}

#[test]
fn insert_then_remove_restores_the_world() {
    let mut world: Hooked<u8> = Hooked::new(false);
    for e in [1, 2, 3] {
        world.spawn(e);
    }
    world.insert(Side::Target, 2, Related::from((9, 4)));
    world.flush();
    world.world.set_related(Side::Source, 9, Related::from((2, 4)));
    world.insert(Side::Source, 1, Related::from_iter(vec![(2, 5), (3, 6)]));
    world.flush();
    assert_eq!(world.get(Side::Target, 2), Some(&Related::from_iter(vec![(9, 4), (1, 5)])));
    assert_eq!(world.get(Side::Target, 3), Some(&Related::from((1, 6))));
    world.remove(Side::Source, 1);
    world.flush();
    assert_eq!(world.get(Side::Target, 2), Some(&Related::from((9, 4))));
    assert_eq!(world.get(Side::Target, 3), None);
    assert_eq!(world.get(Side::Source, 1), None);
}

#[test]
fn associate_only_adds_and_disassociate_only_removes() {
    let mut world: RelationWorld<u8> = RelationWorld::new(false);
    for e in [1, 2, 3] {
        world.spawn(e);
    }
    world.set_related(Side::Target, 2, Related::from_iter(vec![(7, 1), (8, 2)]));
    world.set_related(Side::Source, 1, Related::from_iter(vec![(2, 3), (3, 4)]));
    world.apply(associate(&world, Side::Source, 1));
    // 2 keeps what it had, in order, with 1 added after it
    assert_eq!(
        world.get_related(Side::Target, 2).unwrap().iter(),
        vec![(7, &1), (8, &2), (1, &3)]
    );
    world.take_related(Side::Source, 1);
    let old = Related::from_iter(vec![(2, 3), (3, 4)]);
    world.apply(disassociate(&world, Side::Source, 1, &old));
    assert_eq!(world.get_related(Side::Target, 2).unwrap().iter(), vec![(7, &1), (8, &2)]);
    assert_eq!(world.get_related(Side::Target, 3), None);
}

#[test]
fn world_components_and_life() {
    let mut world: RelationWorld<u8> = RelationWorld::new(false);
    assert!(!world.is_symmetric());
    assert_eq!(world.opposite(Side::Source), Side::Target);
    assert_eq!(world.opposite(Side::Target), Side::Source);
    assert!(!world.is_alive(5));
    world.spawn(5);
    assert!(world.is_alive(5));
    assert!(world.set_related(Side::Source, 5, Related::from((6, 1))).is_none());
    let replaced = world.set_related(Side::Source, 5, Related::from((7, 2)));
    assert_eq!(replaced, Some(Related::from((6, 1))));
    assert_eq!(world.get_related(Side::Target, 5), None);
    assert_eq!(world.take_related(Side::Source, 5), Some(Related::from((7, 2))));
    assert_eq!(world.take_related(Side::Source, 5), None);
    world.set_related(Side::Target, 5, Related::from((8, 3)));
    world.despawn(5);
    assert!(!world.is_alive(5));
    assert_eq!(world.get_related(Side::Target, 5), None);

    let symmetric: RelationWorld<u8> = RelationWorld::new(true);
    assert!(symmetric.is_symmetric());
    assert_eq!(symmetric.opposite(Side::Source), Side::Source);
}

#[test]
fn apply_each_action() {
    let mut world: RelationWorld<u8> = RelationWorld::new(false);
    world.apply(vec![RelationAction::Create { side: Side::Source, entity: 1, other: 2, data: 3 }]);
    assert_eq!(world.get_related(Side::Source, 1), Some(&Related::from((2, 3))));
    world.apply(vec![RelationAction::Push { side: Side::Source, entity: 1, other: 4, data: 5 }]);
    assert_eq!(world.get_related(Side::Source, 1), Some(&Related::from_iter(vec![(2, 3), (4, 5)])));
    // pushing onto a missing component changes nothing
    world.apply(vec![RelationAction::Push { side: Side::Target, entity: 1, other: 4, data: 5 }]);
    assert_eq!(world.get_related(Side::Target, 1), None);
    world.apply(vec![
        RelationAction::Detach { side: Side::Source, entity: 1, other: 2 },
        RelationAction::Notify(RelationMessage::Removed(1, 2)),
    ]);
    assert_eq!(world.get_related(Side::Source, 1), Some(&Related::from((4, 5))));
    world.apply(vec![RelationAction::Drop { side: Side::Source, entity: 1 }]);
    assert_eq!(world.get_related(Side::Source, 1), None);
}

#[test]
fn associate_clones_relation_data() {
    let mut world: Hooked<String> = Hooked::new(false);
    let owner = world.spawn(1);
    let pet = world.spawn(2);
    world.insert(Side::Source, owner, Related::from((pet, String::from("walks daily"))));
    world.flush();
    assert_eq!(
        world.get(Side::Target, pet),
        Some(&Related::from((owner, String::from("walks daily"))))
    );
    assert_eq!(world.messages, vec![RelationMessage::Added(owner, pet)]);
}

#[test]
fn second_run_after_removal_is_empty() {
    let mut world: RelationWorld<()> = RelationWorld::new(true);
    for e in [1, 2, 3] {
        world.spawn(e);
    }
    world.set_related(Side::Source, 1, friends(&[2, 3]));
    world.set_related(Side::Source, 2, friends(&[1]));
    world.set_related(Side::Source, 3, friends(&[1, 2]));
    let old = world.take_related(Side::Source, 1).unwrap();
    let first = disassociate(&world, Side::Source, 1, &old);
    assert_eq!(first.len(), 4);
    world.apply(first);
    assert!(disassociate(&world, Side::Source, 1, &old).is_empty());
    assert_eq!(world.get_related(Side::Source, 2), None);
    // 3 keeps 2, and is not left with an empty component
    assert_eq!(world.get_related(Side::Source, 3), Some(&friends(&[2])));
}

#[test]
fn removal_tells_each_friend_once() {
    let mut world: Hooked<()> = Hooked::new(true);
    let a = world.spawn(1);
    let b = world.spawn(2);
    world.insert(Side::Source, a, friends(&[b]));
    world.flush();
    world.messages.clear();
    world.remove(Side::Source, a);
    world.flush();
    assert_eq!(world.messages, vec![RelationMessage::Removed(a, b)]);
    assert_eq!(world.get(Side::Source, b), None);
}

#[test]
fn growth_needs_no_undoing() {
    let mut world: RelationWorld<()> = RelationWorld::new(true);
    for e in [1, 2, 3] {
        world.spawn(e);
    }
    world.set_related(Side::Source, 1, friends(&[2, 3]));
    let old = friends(&[2]);
    assert!(disassociate(&world, Side::Source, 1, &old).is_empty());
}

#[test]
fn flush_of_several_insertions_ends_mirrored() {
    let mut world: Hooked<u8> = Hooked::new(false);
    for e in [1, 2, 3, 4] {
        world.spawn(e);
    }
    world.insert(Side::Source, 1, Related::from_iter(vec![(2, 10), (3, 11)]));
    world.insert(Side::Source, 4, Related::from_iter(vec![(3, 12)]));
    world.insert(Side::Target, 2, Related::from((4, 13)));
    world.flush();
    assert_eq!(world.get(Side::Target, 2), Some(&Related::from_iter(vec![(1, 10), (4, 13)])));
    assert_eq!(world.get(Side::Target, 3), Some(&Related::from_iter(vec![(1, 11), (4, 12)])));
    assert_eq!(world.get(Side::Source, 4), Some(&Related::from_iter(vec![(3, 12), (2, 13)])));
    assert_eq!(world.get(Side::Source, 1), Some(&Related::from_iter(vec![(2, 10), (3, 11)])));
}
