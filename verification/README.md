# evergreen_relations

Relations between ECS entities whose two sides are kept mirrored: when an entity
holds another in its relation component, the other holds it back in the opposite
component (the same component, for a symmetric relation such as friendship).

- `src/` is the verified library.
  - `container.rs`: `EntityContainer` and `EntityMap`, an insertion-ordered map from
    entity ids to relation data, with its specification over `Seq<(u64, T)>`.
    `EntityMap` is the library's own map rather than `bevy_platform`'s `HashMap`:
    a name for the contents of that map would have to be generic over the data
    type `T`, and the forms by which this crate specifies outside code allow no
    generic names, so that map cannot be given a contract in this crate.
  - `related.rs`: the `Related` component data, and `associate` / `disassociate`,
    the work that follows the insertion, replacement or removal of a component,
    computed as a list of actions on a world.
  - `world.rs`: `RelationWorld`, the entities and components that this work reads,
    its view `WorldView`, and `RelationAction` with how actions change a world.
  - `message.rs`, `query.rs`: the relation messages and the query selectors.
  - `laws.rs`: proofs that the work keeps a mirrored relation mirrored after an
    insertion, a replacement or a removal, changes nothing when it is mirrored,
    only adds links after an insertion and only removes links after a removal,
    never leaves an empty component, settles pending insertions one by one, and
    that an insertion undone by a removal gives back the world as it was.
- `app/` connects the library to `bevy_ecs`: the component and its hooks, which
  read a snapshot of the entities concerned, run the library and carry out the
  actions; the relation traits; the message type; the query aliases.
- `tests/` runs the library, including the friendship scenario.
