use vstd::prelude::*;

use crate::container::{
    has_key, key_index, law_push_changes_only_that_entity, law_push_then_remove,
    law_remove_changes_only_that_entity, lemma_has_key_push, unique_keys, value_of, with_entry,
    without_key,
};
use crate::message::RelationMessage;
use crate::related::{associate_actions, associate_entries, disassociate_actions};
use crate::world::{
    action_cloned, action_entity, actions_cloned, adds_link_to, changes_distinct_entities, flip,
    removes_link_to, reports_additions, reports_removals, RelationAction, Side, WorldView,
};

verus! {

/// Setting a component changes the links of that component only.
proof fn lemma_with_related<T>(v: WorldView<T>, side: Side, e: u64, entries: Seq<(u64, T)>)
    ensures
        ({
            let r = v.with_related(side, e, entries);
            &&& r.symmetric == v.symmetric
            &&& r.alive == v.alive
            &&& forall|s: Side, x: u64, y: u64|
                #![trigger r.links(s, x, y)]
                r.links(s, x, y) == if s == side && x == e {
                    has_key(entries, y)
                } else {
                    v.links(s, x, y)
                }
            &&& forall|s: Side, x: u64|
                #![trigger r.related(s, x)]
                r.related(s, x) == if s == side && x == e {
                    Some(entries)
                } else {
                    v.related(s, x)
                }
        }),
{
}

/// Removing a component takes away its links only.
proof fn lemma_without_related<T>(v: WorldView<T>, side: Side, e: u64)
    ensures
        ({
            let r = v.without_related(side, e);
            &&& r.symmetric == v.symmetric
            &&& r.alive == v.alive
            &&& forall|s: Side, x: u64, y: u64|
                #![trigger r.links(s, x, y)]
                r.links(s, x, y) == (v.links(s, x, y) && !(s == side && x == e))
            &&& forall|s: Side, x: u64|
                #![trigger r.related(s, x)]
                r.related(s, x) == if s == side && x == e {
                    None
                } else {
                    v.related(s, x)
                }
        }),
{
}

/// The keys after the first entry are unique and differ from the first key.
proof fn lemma_unique_drop_first<T>(entries: Seq<(u64, T)>)
    requires
        unique_keys(entries),
        entries.len() > 0,
    ensures
        unique_keys(entries.drop_first()),
        has_key(entries, entries[0].0),
        forall|x: u64|
            #![trigger has_key(entries.drop_first(), x)]
            has_key(entries.drop_first(), x) == (has_key(entries, x) && x != entries[0].0),
        forall|x: u64|
            #![trigger value_of(entries.drop_first(), x)]
            x != entries[0].0 ==> value_of(entries.drop_first(), x) == value_of(entries, x),
{
    let rest = entries.drop_first();
    assert forall|i: int, j: int|
        #![trigger rest[i], rest[j]]
        0 <= i < rest.len() && 0 <= j < rest.len() && i != j implies rest[i].0 != rest[j].0 by {
        assert(rest[i] == entries[i + 1]);
        assert(rest[j] == entries[j + 1]);
    }
    assert forall|x: u64| #![trigger has_key(rest, x)] has_key(rest, x) == (has_key(entries, x) && x
        != entries[0].0) by {
        if has_key(rest, x) {
            let i = choose|i: int| #![trigger rest[i]] 0 <= i < rest.len() && rest[i].0 == x;
            assert(rest[i] == entries[i + 1]);
        }
        if has_key(entries, x) && x != entries[0].0 {
            let i = choose|i: int| #![trigger entries[i]] 0 <= i < entries.len() && entries[i].0 == x;
            assert(i != 0);
            assert(rest[i - 1] == entries[i]);
        }
    }
    assert forall|x: u64| #![trigger value_of(rest, x)] x != entries[0].0 implies value_of(rest, x)
        == value_of(entries, x) by {
        if has_key(rest, x) {
            let j = key_index(rest, x);
            let k = key_index(entries, x);
            assert(rest[j].0 == x);
            assert(entries[k].0 == x);
            assert(rest[j] == entries[j + 1]);
            assert(k == j + 1);
        }
    }
}

/// Applying two actions and then the rest.
proof fn lemma_apply_two<T>(
    v: WorldView<T>,
    first: RelationAction<T>,
    second: RelationAction<T>,
    rest: Seq<RelationAction<T>>,
)
    ensures
        v.apply_all(seq![first, second] + rest) == v.apply(first).apply(second).apply_all(rest),
{
    let all = seq![first, second] + rest;
    let tail = seq![second] + rest;
    assert(all.len() > 0);
    assert(all[0] == first);
    assert(all.drop_first() =~= tail);
    assert(v.apply_all(all) == v.apply(first).apply_all(tail));
    assert(tail.len() > 0);
    assert(tail[0] == second);
    assert(tail.drop_first() =~= rest);
    assert(v.apply(first).apply_all(tail) == v.apply(first).apply(second).apply_all(rest));
}

/// `associate_entries` changes the opposite component of `x`: `x` is one of the
/// entities, alive, and does not relate `a` back yet.
pub(crate) open spec fn associate_touches<T>(
    w: WorldView<T>,
    side: Side,
    a: u64,
    entries: Seq<(u64, T)>,
    x: u64,
) -> bool {
    has_key(entries, x) && w.alive.contains(x) && !w.links(w.opposite(side), x, a)
}

/// The opposite component of `x` after `associate_entries`, when it touches `x`:
/// the one it had with `a` added, or a new one holding only `a`.
pub(crate) open spec fn associated_component<T>(
    w: WorldView<T>,
    side: Side,
    a: u64,
    entries: Seq<(u64, T)>,
    x: u64,
) -> Seq<(u64, T)> {
    let data = value_of(entries, x)->0;
    match w.related(w.opposite(side), x) {
        Some(current) => with_entry(current, a, data),
        None => seq![(a, data)],
    }
}

/// `disassociate_actions` changes the opposite component of `x`: `x` is one of
/// the old entities, alive, relates `a` back, and `a` no longer relates it.
pub(crate) open spec fn disassociate_touches<T>(
    w: WorldView<T>,
    side: Side,
    a: u64,
    old: Seq<(u64, T)>,
    x: u64,
) -> bool {
    has_key(old, x) && w.alive.contains(x) && w.links(w.opposite(side), x, a) && !w.links(
        side,
        a,
        x,
    )
}

/// The opposite component of `x` after `disassociate_actions`, when it touches
/// `x`: the one it had without `a`, or none when nothing else is left.
pub(crate) open spec fn disassociated_component<T>(w: WorldView<T>, side: Side, a: u64, x: u64) -> Option<
    Seq<(u64, T)>,
> {
    let left = without_key(w.components(w.opposite(side))[x], a);
    if left.len() == 0 {
        None
    } else {
        Some(left)
    }
}

/// The single entry `(a, data)` holds exactly `a`, with `data`.
proof fn lemma_single_entry<T>(a: u64, data: T)
    ensures
        unique_keys(seq![(a, data)]),
        forall|y: u64| #![trigger has_key(seq![(a, data)], y)] has_key(seq![(a, data)], y) == (y == a),
        value_of(seq![(a, data)], a) == Some(data),
{
    let single = seq![(a, data)];
    assert(single[0].0 == a);
    assert forall|y: u64| #![trigger has_key(single, y)] has_key(single, y) == (y == a) by {
        if has_key(single, y) {
            let i = choose|i: int| #![trigger single[i]] 0 <= i < 1 && single[i].0 == y;
            assert(i == 0);
        }
    }
    let k = key_index(single, a);
    assert(single[k].0 == a);
}

/// What the actions of `associate_entries` do: every living entity of `entries`
/// that does not relate `a` back on the opposite side gets `a` added there (its
/// component is created when it has none); nothing else changes.
proof fn lemma_associate_links<T>(
    w: WorldView<T>,
    v: WorldView<T>,
    side: Side,
    a: u64,
    entries: Seq<(u64, T)>,
)
    requires
        unique_keys(entries),
        v.symmetric == w.symmetric,
        v.alive == w.alive,
        forall|b: u64|
            #![trigger has_key(entries, b)]
            has_key(entries, b) ==> v.related(w.opposite(side), b) == w.related(
                w.opposite(side),
                b,
            ),
        v.components_unique(),
    ensures
        ({
            let r = v.apply_all(associate_entries(w, side, a, entries));
            let opp = w.opposite(side);
            &&& r.symmetric == v.symmetric
            &&& r.alive == v.alive
            &&& r.components_unique()
            &&& forall|s: Side, x: u64, y: u64|
                #![trigger r.links(s, x, y)]
                r.links(s, x, y) == (v.links(s, x, y) || (s == opp && y == a && has_key(entries, x)
                    && w.alive.contains(x)))
            &&& forall|s: Side, x: u64|
                #![trigger r.related(s, x)]
                !(s == opp && associate_touches(w, side, a, entries, x)) ==> r.related(s, x)
                    == v.related(s, x)
            &&& forall|x: u64|
                #![trigger associate_touches(w, side, a, entries, x)]
                associate_touches(w, side, a, entries, x) ==> r.related(opp, x) == Some(
                    associated_component(w, side, a, entries, x),
                ) && value_of(associated_component(w, side, a, entries, x), a) == value_of(
                    entries,
                    x,
                )
        }),
    decreases entries.len(),
{
    let opp = w.opposite(side);
    if entries.len() > 0 {
        let b = entries[0].0;
        let data = entries[0].1;
        let rest = entries.drop_first();
        lemma_unique_drop_first(entries);
        assert(value_of(entries, b) == Some(data)) by {
            let k = key_index(entries, b);
            assert(entries[k].0 == b);
            assert(entries[0].0 == b);
        }
        assert forall|x: u64| x != b implies #[trigger] associate_touches(w, side, a, entries, x)
            == associate_touches(w, side, a, rest, x) && associated_component(
            w,
            side,
            a,
            entries,
            x,
        ) == associated_component(w, side, a, rest, x) by {
            assert(has_key(rest, x) == has_key(entries, x));
            assert(value_of(rest, x) == value_of(entries, x));
        }
        if !w.alive.contains(b) || w.links(opp, b, a) {
            assert(!associate_touches(w, side, a, entries, b));
            lemma_associate_links(w, v, side, a, rest);
        } else {
            let change = if w.components(opp).contains_key(b) {
                RelationAction::Push { side: opp, entity: b, other: a, data }
            } else {
                RelationAction::Create { side: opp, entity: b, other: a, data }
            };
            let notify = RelationAction::Notify(RelationMessage::Added(a, b));
            assert(associate_entries(w, side, a, entries) == seq![change, notify]
                + associate_entries(w, side, a, rest));
            lemma_apply_two(v, change, notify, associate_entries(w, side, a, rest));
            let v2 = v.apply(change);
            let new_entries = associated_component(w, side, a, entries, b);
            if w.components(opp).contains_key(b) {
                let old_entries = w.components(opp)[b];
                assert(v.related(opp, b) == Some(old_entries));
                law_push_changes_only_that_entity(old_entries, a, data);
                assert(!has_key(old_entries, a));
                assert(with_entry(old_entries, a, data) == old_entries.push((a, data)));
                lemma_has_key_push(old_entries, (a, data));
            } else {
                assert(v.related(opp, b) is None);
                lemma_single_entry(a, data);
            }
            assert(v2 == v.with_related(opp, b, new_entries));
            lemma_with_related(v, opp, b, new_entries);
            assert(v2.components_unique()) by {
                assert forall|s: Side, x: u64|
                    #![trigger v2.components(s)[x]]
                    v2.components(s).contains_key(x) implies unique_keys(v2.components(s)[x]) by {
                    if s == opp && x == b {
                        assert(v2.related(s, x) == Some(new_entries));
                    } else {
                        assert(v2.related(s, x) == v.related(s, x));
                    }
                }
            }
            assert(v2.apply(notify) == v2);
            assert(associate_touches(w, side, a, entries, b));
            assert(!associate_touches(w, side, a, rest, b));
            lemma_associate_links(w, v2, side, a, rest);
        }
    }
}

/// What the actions of `disassociate_actions` do: every living entity of `old`
/// that relates `a` back although `a` no longer relates it loses `a` (and its
/// component, when nothing else is left in it); nothing else changes.
proof fn lemma_disassociate_links<T>(
    w: WorldView<T>,
    v: WorldView<T>,
    side: Side,
    a: u64,
    old: Seq<(u64, T)>,
)
    requires
        unique_keys(old),
        v.symmetric == w.symmetric,
        v.alive == w.alive,
        forall|b: u64|
            #![trigger has_key(old, b)]
            has_key(old, b) ==> v.related(w.opposite(side), b) == w.related(w.opposite(side), b),
        v.components_unique(),
    ensures
        ({
            let r = v.apply_all(disassociate_actions(w, side, a, old));
            let opp = w.opposite(side);
            &&& r.symmetric == v.symmetric
            &&& r.alive == v.alive
            &&& r.components_unique()
            &&& forall|s: Side, x: u64, y: u64|
                #![trigger r.links(s, x, y)]
                r.links(s, x, y) == (v.links(s, x, y) && !(s == opp && y == a
                    && disassociate_touches(w, side, a, old, x)))
            &&& forall|s: Side, x: u64|
                #![trigger r.related(s, x)]
                !(s == opp && disassociate_touches(w, side, a, old, x)) ==> r.related(s, x)
                    == v.related(s, x)
            &&& forall|x: u64|
                #![trigger disassociate_touches(w, side, a, old, x)]
                disassociate_touches(w, side, a, old, x) ==> r.related(opp, x)
                    == disassociated_component(w, side, a, x)
        }),
    decreases old.len(),
{
    let opp = w.opposite(side);
    if old.len() > 0 {
        let b = old[0].0;
        let rest = old.drop_first();
        lemma_unique_drop_first(old);
        assert forall|x: u64| x != b implies #[trigger] disassociate_touches(w, side, a, old, x)
            == disassociate_touches(w, side, a, rest, x) by {
            assert(has_key(rest, x) == has_key(old, x));
        }
        if w.alive.contains(b) && w.links(opp, b, a) && !w.links(side, a, b) {
            let current = w.components(opp)[b];
            assert(v.related(opp, b) == Some(current));
            law_remove_changes_only_that_entity(current, a);
            let change = if without_key(current, a).len() == 0 {
                RelationAction::Drop { side: opp, entity: b }
            } else {
                RelationAction::Detach { side: opp, entity: b, other: a }
            };
            let notify = RelationAction::Notify(RelationMessage::Removed(a, b));
            assert(disassociate_actions(w, side, a, old) == seq![change, notify]
                + disassociate_actions(w, side, a, rest));
            lemma_apply_two(v, change, notify, disassociate_actions(w, side, a, rest));
            let v2 = v.apply(change);
            if without_key(current, a).len() == 0 {
                assert(v2 == v.without_related(opp, b));
                lemma_without_related(v, opp, b);
                assert forall|y: u64| #![trigger has_key(current, y)] has_key(current, y) implies y
                    == a by {
                    if y != a {
                        assert(has_key(without_key(current, a), y));
                        let i = choose|i: int|
                            #![trigger without_key(current, a)[i]]
                            0 <= i < without_key(current, a).len() && without_key(current, a)[i].0
                                == y;
                    }
                }
            } else {
                assert(v2 == v.with_related(opp, b, without_key(current, a)));
                lemma_with_related(v, opp, b, without_key(current, a));
            }
            assert(v2.related(opp, b) == disassociated_component(w, side, a, b));
            assert(v2.components_unique()) by {
                assert forall|s: Side, x: u64|
                    #![trigger v2.components(s)[x]]
                    v2.components(s).contains_key(x) implies unique_keys(v2.components(s)[x]) by {
                    if s == opp && x == b {
                        assert(v2.related(s, x) == Some(without_key(current, a)));
                    } else {
                        assert(v2.related(s, x) == v.related(s, x));
                    }
                }
            }
            assert(v2.apply(notify) == v2);
            assert(disassociate_touches(w, side, a, old, b));
            assert(!disassociate_touches(w, side, a, rest, b));
            lemma_disassociate_links(w, v2, side, a, rest);
        } else {
            assert(!disassociate_touches(w, side, a, old, b));
            lemma_disassociate_links(w, v, side, a, rest);
        }
    }
}

/// Taking the opposite side twice gives back the side.
proof fn lemma_opposite_twice<T>(w: WorldView<T>)
    ensures
        forall|s: Side| #![trigger w.opposite(w.opposite(s))] w.opposite(w.opposite(s)) == s,
{
    assert forall|s: Side| #![trigger w.opposite(w.opposite(s))] w.opposite(w.opposite(s)) == s by {
        assert(flip(flip(s)) == s);
    }
}

/// Inserting a component on an entity that held none on that side, then carrying
/// out the work that follows the insertion, leaves the relation mirrored: exactly
/// the entities that the new component relates relate the entity back, each with
/// the data that the new component holds for it.
pub proof fn law_insert_keeps_relation_mirrored<T>(
    w0: WorldView<T>,
    side: Side,
    a: u64,
    c: Seq<(u64, T)>,
)
    requires
        w0.well_formed(),
        w0.mirrored(),
        w0.alive.contains(a),
        w0.related(side, a) is None,
        unique_keys(c),
        forall|y: u64| #![trigger has_key(c, y)] has_key(c, y) ==> w0.alive.contains(y),
    ensures
        ({
            let w1 = w0.with_related(side, a, c);
            let w2 = w1.apply_all(associate_actions(w1, side, a));
            &&& w2.mirrored()
            &&& w2.well_formed()
            &&& forall|y: u64|
                #![trigger w2.links(w2.opposite(side), y, a)]
                w2.links(w2.opposite(side), y, a) == has_key(c, y)
            &&& forall|y: u64|
                #![trigger has_key(c, y)]
                has_key(c, y) ==> value_of(w2.components(w2.opposite(side))[y], a) == value_of(
                    c,
                    y,
                )
        }),
{
    let opp = w0.opposite(side);
    let w1 = w0.with_related(side, a, c);
    lemma_with_related(w0, side, a, c);
    lemma_opposite_twice(w0);
    lemma_components_unique_after_set(w0, side, a, c);
    assert(w1.related(side, a) == Some(c));
    lemma_associate_links(w1, w1, side, a, c);
    let w2 = w1.apply_all(associate_actions(w1, side, a));
    lemma_no_back_links(w0, side, a);
    assert forall|s: Side, x: u64, y: u64|
        #![trigger w2.links(s, x, y)]
        w2.links(s, x, y) <==> w2.links(w2.opposite(s), y, x) by {
        let t = w0.opposite(s);
        assert(w0.links(s, x, y) == w0.links(t, y, x));
        assert(w1.links(s, x, y) == if s == side && x == a {
            has_key(c, y)
        } else {
            w0.links(s, x, y)
        });
        assert(w1.links(t, y, x) == if t == side && y == a {
            has_key(c, x)
        } else {
            w0.links(t, y, x)
        });
        assert(w2.links(s, x, y) == (w1.links(s, x, y) || (s == opp && y == a && has_key(c, x))));
        assert(w2.links(t, y, x) == (w1.links(t, y, x) || (t == opp && x == a && has_key(c, y))));
    }
    assert forall|s: Side, x: u64, y: u64|
        #![trigger w2.links(s, x, y)]
        w2.links(s, x, y) implies w2.alive.contains(y) by {
        assert(w2.links(s, x, y) == (w1.links(s, x, y) || (s == opp && y == a && has_key(c, x))));
        assert(w1.links(s, x, y) == if s == side && x == a {
            has_key(c, y)
        } else {
            w0.links(s, x, y)
        });
    }
    assert forall|y: u64|
        #![trigger w2.links(w2.opposite(side), y, a)]
        w2.links(w2.opposite(side), y, a) == has_key(c, y) by {
        assert(w2.links(opp, y, a) == (w1.links(opp, y, a) || has_key(c, y)));
        assert(w1.links(opp, y, a) == if opp == side && y == a {
            has_key(c, a)
        } else {
            w0.links(opp, y, a)
        });
    }
    assert forall|y: u64| #![trigger has_key(c, y)] has_key(c, y) implies value_of(
        w2.components(w2.opposite(side))[y],
        a,
    ) == value_of(c, y) by {
        if associate_touches(w1, side, a, c, y) {
            assert(w2.related(opp, y) == Some(associated_component(w1, side, a, c, y)));
        } else {
            assert(w1.links(opp, y, a));
            assert(opp == side && y == a);
            assert(w2.related(side, a) == w1.related(side, a));
        }
    }
}

/// Replacing the component of an entity, then carrying out the work that follows
/// the replacement and then the work that follows the insertion, leaves the
/// relation mirrored: exactly the entities that the new component relates relate
/// the entity back.
pub proof fn law_replace_keeps_relation_mirrored<T>(
    w0: WorldView<T>,
    side: Side,
    a: u64,
    c: Seq<(u64, T)>,
)
    requires
        w0.well_formed(),
        w0.mirrored(),
        w0.alive.contains(a),
        w0.related(side, a) is Some,
        unique_keys(c),
        forall|y: u64| #![trigger has_key(c, y)] has_key(c, y) ==> w0.alive.contains(y),
    ensures
        ({
            let old = w0.components(side)[a];
            let w1 = w0.with_related(side, a, c);
            let w2 = w1.apply_all(disassociate_actions(w1, side, a, old));
            let w3 = w2.apply_all(associate_actions(w2, side, a));
            &&& w3.mirrored()
            &&& w3.well_formed()
            &&& forall|y: u64|
                #![trigger w3.links(w3.opposite(side), y, a)]
                w3.links(w3.opposite(side), y, a) == has_key(c, y)
        }),
{
    let opp = w0.opposite(side);
    let old = w0.components(side)[a];
    let w1 = w0.with_related(side, a, c);
    lemma_with_related(w0, side, a, c);
    lemma_opposite_twice(w0);
    lemma_components_unique_after_set(w0, side, a, c);
    lemma_back_links_of_component(w0, side, a);
    lemma_disassociate_links(w1, w1, side, a, old);
    let w2 = w1.apply_all(disassociate_actions(w1, side, a, old));
    // the work that follows the replacement leaves the new component in place
    assert(!(opp == side && disassociate_touches(w1, side, a, old, a)));
    assert(w2.related(side, a) == Some(c));
    lemma_associate_links(w2, w2, side, a, c);
    let w3 = w2.apply_all(associate_actions(w2, side, a));
    assert forall|s: Side, x: u64, y: u64|
        #![trigger w3.links(s, x, y)]
        w3.links(s, x, y) <==> w3.links(w3.opposite(s), y, x) by {
        let t = w0.opposite(s);
        assert(w0.links(s, x, y) == w0.links(t, y, x));
        assert(w1.links(s, x, y) == if s == side && x == a {
            has_key(c, y)
        } else {
            w0.links(s, x, y)
        });
        assert(w1.links(t, y, x) == if t == side && y == a {
            has_key(c, x)
        } else {
            w0.links(t, y, x)
        });
        assert(w2.links(s, x, y) == (w1.links(s, x, y) && !(s == opp && y == a
            && disassociate_touches(w1, side, a, old, x))));
        assert(w2.links(t, y, x) == (w1.links(t, y, x) && !(t == opp && x == a
            && disassociate_touches(w1, side, a, old, y))));
        assert(w3.links(s, x, y) == (w2.links(s, x, y) || (s == opp && y == a && has_key(c, x))));
        assert(w3.links(t, y, x) == (w2.links(t, y, x) || (t == opp && x == a && has_key(c, y))));
    }
    assert forall|s: Side, x: u64, y: u64|
        #![trigger w3.links(s, x, y)]
        w3.links(s, x, y) implies w3.alive.contains(y) by {
        assert(w3.links(s, x, y) == (w2.links(s, x, y) || (s == opp && y == a && has_key(c, x))));
        assert(w2.links(s, x, y) ==> w1.links(s, x, y));
        assert(w1.links(s, x, y) == if s == side && x == a {
            has_key(c, y)
        } else {
            w0.links(s, x, y)
        });
    }
    assert forall|y: u64|
        #![trigger w3.links(w3.opposite(side), y, a)]
        w3.links(w3.opposite(side), y, a) == has_key(c, y) by {
        assert(w3.links(opp, y, a) == (w2.links(opp, y, a) || has_key(c, y)));
        assert(w2.links(opp, y, a) == (w1.links(opp, y, a) && !disassociate_touches(
            w1,
            side,
            a,
            old,
            y,
        )));
        assert(w1.links(opp, y, a) == if opp == side && y == a {
            has_key(c, a)
        } else {
            w0.links(opp, y, a)
        });
    }
}

/// Removing the component of an entity, then carrying out the work that follows
/// the removal, leaves the relation mirrored: no entity relates the entity back any
/// more.
pub proof fn law_remove_keeps_relation_mirrored<T>(w0: WorldView<T>, side: Side, a: u64)
    requires
        w0.well_formed(),
        w0.mirrored(),
        w0.related(side, a) is Some,
    ensures
        ({
            let old = w0.components(side)[a];
            let w1 = w0.without_related(side, a);
            let w2 = w1.apply_all(disassociate_actions(w1, side, a, old));
            &&& w2.mirrored()
            &&& w2.well_formed()
            &&& forall|y: u64|
                #![trigger w2.links(w2.opposite(side), y, a)]
                !w2.links(w2.opposite(side), y, a)
        }),
{
    let opp = w0.opposite(side);
    let old = w0.components(side)[a];
    let w1 = w0.without_related(side, a);
    lemma_without_related(w0, side, a);
    lemma_opposite_twice(w0);
    lemma_components_unique_after_removal(w0, side, a);
    lemma_back_links_of_component(w0, side, a);
    lemma_disassociate_links(w1, w1, side, a, old);
    let w2 = w1.apply_all(disassociate_actions(w1, side, a, old));
    assert forall|s: Side, x: u64, y: u64|
        #![trigger w2.links(s, x, y)]
        w2.links(s, x, y) <==> w2.links(w2.opposite(s), y, x) by {
        let t = w0.opposite(s);
        assert(w0.links(s, x, y) == w0.links(t, y, x));
        assert(w1.links(s, x, y) == (w0.links(s, x, y) && !(s == side && x == a)));
        assert(w1.links(t, y, x) == (w0.links(t, y, x) && !(t == side && y == a)));
        assert(w2.links(s, x, y) == (w1.links(s, x, y) && !(s == opp && y == a
            && disassociate_touches(w1, side, a, old, x))));
        assert(w2.links(t, y, x) == (w1.links(t, y, x) && !(t == opp && x == a
            && disassociate_touches(w1, side, a, old, y))));
    }
    assert forall|s: Side, x: u64, y: u64|
        #![trigger w2.links(s, x, y)]
        w2.links(s, x, y) implies w2.alive.contains(y) by {
        assert(w2.links(s, x, y) ==> w1.links(s, x, y));
        assert(w1.links(s, x, y) ==> w0.links(s, x, y));
    }
    assert forall|y: u64|
        #![trigger w2.links(w2.opposite(side), y, a)]
        !w2.links(w2.opposite(side), y, a) by {
        assert(w2.links(opp, y, a) == (w1.links(opp, y, a) && !disassociate_touches(
            w1,
            side,
            a,
            old,
            y,
        )));
        assert(w1.links(opp, y, a) == (w0.links(opp, y, a) && !(opp == side && y == a)));
    }
}

/// Setting a component with unique keys keeps every component's keys unique.
proof fn lemma_components_unique_after_set<T>(
    w: WorldView<T>,
    side: Side,
    a: u64,
    c: Seq<(u64, T)>,
)
    requires
        w.components_unique(),
        unique_keys(c),
    ensures
        w.with_related(side, a, c).components_unique(),
{
    let w1 = w.with_related(side, a, c);
    lemma_with_related(w, side, a, c);
    assert forall|s: Side, x: u64|
        #![trigger w1.components(s)[x]]
        w1.components(s).contains_key(x) implies unique_keys(w1.components(s)[x]) by {
        assert(w1.related(s, x) == if s == side && x == a {
            Some(c)
        } else {
            w.related(s, x)
        });
    }
}

/// Removing a component keeps every other component's keys unique.
proof fn lemma_components_unique_after_removal<T>(w: WorldView<T>, side: Side, a: u64)
    requires
        w.components_unique(),
    ensures
        w.without_related(side, a).components_unique(),
{
    let w1 = w.without_related(side, a);
    lemma_without_related(w, side, a);
    assert forall|s: Side, x: u64|
        #![trigger w1.components(s)[x]]
        w1.components(s).contains_key(x) implies unique_keys(w1.components(s)[x]) by {
        assert(w1.related(s, x) == w.related(s, x));
    }
}

/// In a mirrored world, an entity without a `side` component is related back by
/// no one on the opposite side.
proof fn lemma_no_back_links<T>(w: WorldView<T>, side: Side, a: u64)
    requires
        w.mirrored(),
        w.related(side, a) is None,
    ensures
        forall|x: u64| #![trigger w.links(w.opposite(side), x, a)] !w.links(w.opposite(side), x, a),
{
    lemma_opposite_twice(w);
    assert forall|x: u64| #![trigger w.links(w.opposite(side), x, a)] !w.links(
        w.opposite(side),
        x,
        a,
    ) by {
        assert(w.links(w.opposite(side), x, a) == w.links(w.opposite(w.opposite(side)), a, x));
    }
}

/// In a well-formed mirrored world, the entities that relate `a` back on the
/// opposite side are exactly those of `a`'s `side` component, and they are alive.
proof fn lemma_back_links_of_component<T>(w: WorldView<T>, side: Side, a: u64)
    requires
        w.well_formed(),
        w.mirrored(),
        w.related(side, a) is Some,
    ensures
        unique_keys(w.components(side)[a]),
        forall|x: u64|
            #![trigger w.links(w.opposite(side), x, a)]
            w.links(w.opposite(side), x, a) == has_key(w.components(side)[a], x),
        forall|x: u64|
            #![trigger has_key(w.components(side)[a], x)]
            has_key(w.components(side)[a], x) ==> w.alive.contains(x),
{
    lemma_opposite_twice(w);
    let old = w.components(side)[a];
    assert forall|x: u64| #![trigger w.links(w.opposite(side), x, a)] w.links(
        w.opposite(side),
        x,
        a,
    ) == has_key(old, x) by {
        assert(w.links(w.opposite(side), x, a) == w.links(w.opposite(w.opposite(side)), a, x));
    }
    assert forall|x: u64| #![trigger has_key(old, x)] has_key(old, x) implies w.alive.contains(x) by {
        assert(w.links(side, a, x));
    }
}

/// The work that follows an insertion only adds links: every component stays, and
/// stays a prefix of what it becomes (so every entity it related is still related,
/// with the same data); no component is removed, and the inserted component stays
/// as it was inserted.
pub proof fn law_associate_only_adds_links<T>(w: WorldView<T>, side: Side, a: u64)
    requires
        w.components_unique(),
    ensures
        ({
            let r = w.apply_all(associate_actions(w, side, a));
            &&& r.symmetric == w.symmetric
            &&& r.alive == w.alive
            &&& r.components_unique()
            &&& r.related(side, a) == w.related(side, a)
            &&& forall|s: Side, x: u64|
                #![trigger r.related(s, x)]
                w.related(s, x) is Some ==> r.related(s, x) is Some && w.components(
                    s,
                )[x].is_prefix_of(r.components(s)[x])
        }),
{
    let r = w.apply_all(associate_actions(w, side, a));
    let opp = w.opposite(side);
    if w.related(side, a) is Some {
        let entries = w.components(side)[a];
        lemma_associate_links(w, w, side, a, entries);
        assert(!(opp == side && associate_touches(w, side, a, entries, a)));
        assert forall|s: Side, x: u64|
            #![trigger r.related(s, x)]
            w.related(s, x) is Some implies r.related(s, x) is Some && w.components(
                s,
            )[x].is_prefix_of(r.components(s)[x]) by {
            let current = w.components(s)[x];
            if s == opp && associate_touches(w, side, a, entries, x) {
                let data = value_of(entries, x)->0;
                assert(r.related(opp, x) == Some(associated_component(w, side, a, entries, x)));
                assert(!has_key(current, a));
                assert(with_entry(current, a, data) == current.push((a, data)));
                assert(current.push((a, data)).subrange(0, current.len() as int) =~= current);
            } else {
                assert(r.related(s, x) == w.related(s, x));
                assert(current.subrange(0, current.len() as int) =~= current);
            }
        }
    } else {
        assert(associate_actions(w, side, a) == Seq::<RelationAction<T>>::empty());
        assert forall|s: Side, x: u64|
            #![trigger r.related(s, x)]
            w.related(s, x) is Some implies r.related(s, x) is Some && w.components(
                s,
            )[x].is_prefix_of(r.components(s)[x]) by {
            let current = w.components(s)[x];
            assert(current.subrange(0, current.len() as int) =~= current);
        }
    }
}

/// The opposite component of `x` before `associate_entries` adds `a` to it: the
/// one it had, or nothing.
pub(crate) open spec fn associate_base<T>(w: WorldView<T>, side: Side, x: u64) -> Seq<(u64, T)> {
    match w.related(w.opposite(side), x) {
        Some(current) => current,
        None => Seq::empty(),
    }
}

/// What a list of clones of the actions of `associate_entries` does: the same as
/// those actions, but for the data added, each a clone of the data it stands for.
proof fn lemma_associate_cloned<T: Clone>(
    w: WorldView<T>,
    v: WorldView<T>,
    side: Side,
    a: u64,
    entries: Seq<(u64, T)>,
    copies: Seq<RelationAction<T>>,
)
    requires
        unique_keys(entries),
        v.symmetric == w.symmetric,
        v.alive == w.alive,
        forall|b: u64|
            #![trigger has_key(entries, b)]
            has_key(entries, b) ==> v.related(w.opposite(side), b) == w.related(
                w.opposite(side),
                b,
            ),
        v.components_unique(),
        actions_cloned(associate_entries(w, side, a, entries), copies),
    ensures
        ({
            let r = v.apply_all(copies);
            let opp = w.opposite(side);
            &&& r.components_unique()
            &&& forall|s: Side, x: u64|
                #![trigger r.related(s, x)]
                !(s == opp && associate_touches(w, side, a, entries, x)) ==> r.related(s, x)
                    == v.related(s, x)
            &&& forall|x: u64|
                #![trigger associate_touches(w, side, a, entries, x)]
                associate_touches(w, side, a, entries, x) ==> r.related(opp, x) is Some
                    && r.components(opp)[x].len() > 0 && r.components(opp)[x].drop_last()
                    == associate_base(w, side, x) && r.components(opp)[x].last().0 == a
                    && cloned(value_of(entries, x)->0, r.components(opp)[x].last().1)
        }),
    decreases entries.len(),
{
    let opp = w.opposite(side);
    if entries.len() == 0 {
        assert(copies.len() == 0);
    } else {
        let b = entries[0].0;
        let data = entries[0].1;
        let rest = entries.drop_first();
        lemma_unique_drop_first(entries);
        assert(value_of(entries, b) == Some(data)) by {
            let k = key_index(entries, b);
            assert(entries[k].0 == b);
            assert(entries[0].0 == b);
        }
        assert forall|x: u64| x != b implies #[trigger] associate_touches(w, side, a, entries, x)
            == associate_touches(w, side, a, rest, x) && value_of(entries, x) == value_of(
            rest,
            x,
        ) by {
            assert(has_key(rest, x) == has_key(entries, x));
            assert(value_of(rest, x) == value_of(entries, x));
        }
        if !w.alive.contains(b) || w.links(opp, b, a) {
            assert(!associate_touches(w, side, a, entries, b));
            lemma_associate_cloned(w, v, side, a, rest, copies);
        } else {
            let change = if w.components(opp).contains_key(b) {
                RelationAction::Push { side: opp, entity: b, other: a, data }
            } else {
                RelationAction::Create { side: opp, entity: b, other: a, data }
            };
            let notify = RelationAction::Notify(RelationMessage::Added(a, b));
            let spec_rest = associate_entries(w, side, a, rest);
            assert(associate_entries(w, side, a, entries) == seq![change, notify] + spec_rest);
            let tail = copies.subrange(2, copies.len() as int);
            assert(copies =~= seq![copies[0], copies[1]] + tail);
            assert(action_cloned((seq![change, notify] + spec_rest)[0], copies[0]));
            assert(action_cloned((seq![change, notify] + spec_rest)[1], copies[1]));
            assert(copies[1] == notify);
            assert(actions_cloned(spec_rest, tail)) by {
                assert forall|i: int| #![trigger tail[i]] 0 <= i < tail.len() implies action_cloned(
                    spec_rest[i],
                    tail[i],
                ) by {
                    assert(tail[i] == copies[i + 2]);
                    assert((seq![change, notify] + spec_rest)[i + 2] == spec_rest[i]);
                }
            }
            lemma_apply_two(v, copies[0], copies[1], tail);
            let copy = match copies[0] {
                RelationAction::Push { data: d, .. } => d,
                RelationAction::Create { data: d, .. } => d,
                _ => data,
            };
            assert(cloned(data, copy));
            let base = associate_base(w, side, b);
            let new_entries = base.push((a, copy));
            let v2 = v.apply(copies[0]);
            if w.components(opp).contains_key(b) {
                assert(v.related(opp, b) == Some(base));
                assert(!has_key(base, a));
                law_push_changes_only_that_entity(base, a, copy);
                assert(with_entry(base, a, copy) == new_entries);
            } else {
                assert(v.related(opp, b) is None);
                lemma_single_entry(a, copy);
                assert(new_entries =~= seq![(a, copy)]);
            }
            assert(v2 == v.with_related(opp, b, new_entries));
            lemma_with_related(v, opp, b, new_entries);
            lemma_components_unique_after_set(v, opp, b, new_entries);
            assert(v2.apply(copies[1]) == v2);
            assert(new_entries.drop_last() =~= base);
            assert(associate_touches(w, side, a, entries, b));
            assert(!associate_touches(w, side, a, rest, b));
            lemma_associate_cloned(w, v2, side, a, rest, tail);
        }
    }
}

/// The list that `associate` returns only adds links, as the list it stands for
/// does: every component stays, a prefix of what it becomes, with the same data;
/// the inserted component stays as it was inserted; and each entity that gets `a`
/// added gets a clone of the data that the inserted component holds for it.
pub proof fn law_associate_result_only_adds_links<T: Clone>(
    w: WorldView<T>,
    side: Side,
    a: u64,
    actions: Seq<RelationAction<T>>,
)
    requires
        w.components_unique(),
        actions_cloned(associate_actions(w, side, a), actions),
    ensures
        ({
            let r = w.apply_all(actions);
            let opp = w.opposite(side);
            &&& r.components_unique()
            &&& r.related(side, a) == w.related(side, a)
            &&& forall|s: Side, x: u64|
                #![trigger r.related(s, x)]
                w.related(s, x) is Some ==> r.related(s, x) is Some && w.components(
                    s,
                )[x].is_prefix_of(r.components(s)[x])
            &&& forall|x: u64|
                #![trigger r.links(opp, x, a)]
                w.related(side, a) is Some && r.links(opp, x, a) && !w.links(opp, x, a) ==> cloned(
                    value_of(w.components(side)[a], x)->0,
                    r.components(opp)[x].last().1,
                ) && r.components(opp)[x].last().0 == a
        }),
{
    let r = w.apply_all(actions);
    let opp = w.opposite(side);
    if w.related(side, a) is Some {
        let entries = w.components(side)[a];
        lemma_associate_cloned(w, w, side, a, entries, actions);
        assert(!(opp == side && associate_touches(w, side, a, entries, a)));
        assert forall|s: Side, x: u64|
            #![trigger r.related(s, x)]
            w.related(s, x) is Some implies r.related(s, x) is Some && w.components(
                s,
            )[x].is_prefix_of(r.components(s)[x]) by {
            let current = w.components(s)[x];
            if s == opp && associate_touches(w, side, a, entries, x) {
                let grown = r.components(opp)[x];
                assert(grown.drop_last() == current);
                assert(grown.subrange(0, current.len() as int) =~= grown.drop_last());
            } else {
                assert(r.related(s, x) == w.related(s, x));
                assert(current.subrange(0, current.len() as int) =~= current);
            }
        }
        assert forall|x: u64|
            #![trigger r.links(opp, x, a)]
            r.links(opp, x, a) && !w.links(opp, x, a) implies cloned(
            value_of(entries, x)->0,
            r.components(opp)[x].last().1,
        ) && r.components(opp)[x].last().0 == a by {
            if !associate_touches(w, side, a, entries, x) {
                assert(r.related(opp, x) == w.related(opp, x));
            }
        }
    } else {
        assert(associate_actions(w, side, a) == Seq::<RelationAction<T>>::empty());
        assert(actions.len() == 0);
        assert forall|s: Side, x: u64|
            #![trigger r.related(s, x)]
            w.related(s, x) is Some implies r.related(s, x) is Some && w.components(
                s,
            )[x].is_prefix_of(r.components(s)[x]) by {
            let current = w.components(s)[x];
            assert(current.subrange(0, current.len() as int) =~= current);
        }
    }
}

/// The work that follows a replacement or a removal only removes links: it creates
/// no component, and every entity that a component relates afterwards it related
/// before, with the same data.
pub proof fn law_disassociate_only_removes_links<T>(
    w: WorldView<T>,
    side: Side,
    a: u64,
    old: Seq<(u64, T)>,
)
    requires
        w.components_unique(),
        unique_keys(old),
    ensures
        ({
            let r = w.apply_all(disassociate_actions(w, side, a, old));
            &&& r.symmetric == w.symmetric
            &&& r.alive == w.alive
            &&& r.components_unique()
            &&& forall|s: Side, x: u64|
                #![trigger r.related(s, x)]
                r.related(s, x) is Some ==> w.related(s, x) is Some
            &&& forall|s: Side, x: u64, y: u64|
                #![trigger r.links(s, x, y)]
                r.links(s, x, y) ==> w.links(s, x, y) && value_of(r.components(s)[x], y)
                    == value_of(w.components(s)[x], y)
        }),
{
    let r = w.apply_all(disassociate_actions(w, side, a, old));
    let opp = w.opposite(side);
    lemma_disassociate_links(w, w, side, a, old);
    assert forall|s: Side, x: u64|
        #![trigger r.related(s, x)]
        r.related(s, x) is Some implies w.related(s, x) is Some by {
        if s == opp && disassociate_touches(w, side, a, old, x) {
            assert(r.related(opp, x) == disassociated_component(w, side, a, x));
        } else {
            assert(r.related(s, x) == w.related(s, x));
        }
    }
    assert forall|s: Side, x: u64, y: u64|
        #![trigger r.links(s, x, y)]
        r.links(s, x, y) implies w.links(s, x, y) && value_of(r.components(s)[x], y) == value_of(
            w.components(s)[x],
            y,
        ) by {
        if s == opp && disassociate_touches(w, side, a, old, x) {
            let current = w.components(opp)[x];
            law_remove_changes_only_that_entity(current, a);
            assert(r.related(opp, x) == disassociated_component(w, side, a, x));
            assert(r.components(opp)[x] == without_key(current, a));
            assert(has_key(without_key(current, a), y));
            assert(y != a);
        } else {
            assert(r.related(s, x) == w.related(s, x));
        }
    }
}

/// Inserting a component on an entity that held none, carrying out the work that
/// follows, then removing that component and carrying out the work that follows,
/// gives back the world as it was, relation data included. Left out are worlds in
/// which an entity of the inserted component holds an empty opposite component:
/// the removal takes that component away, as it leaves it empty.
pub proof fn law_insert_then_remove_restores<T>(
    w0: WorldView<T>,
    side: Side,
    a: u64,
    c: Seq<(u64, T)>,
)
    requires
        w0.components_unique(),
        w0.mirrored(),
        w0.related(side, a) is None,
        unique_keys(c),
        forall|x: u64|
            #![trigger has_key(c, x)]
            has_key(c, x) && w0.components(w0.opposite(side)).contains_key(x) ==> w0.components(
                w0.opposite(side),
            )[x].len() > 0,
    ensures
        ({
            let w1 = w0.with_related(side, a, c);
            let w2 = w1.apply_all(associate_actions(w1, side, a));
            let w3 = w2.without_related(side, a);
            let w4 = w3.apply_all(disassociate_actions(w3, side, a, c));
            w4 == w0
        }),
{
    let opp = w0.opposite(side);
    let w1 = w0.with_related(side, a, c);
    lemma_with_related(w0, side, a, c);
    lemma_components_unique_after_set(w0, side, a, c);
    lemma_no_back_links(w0, side, a);
    assert(w1.related(side, a) == Some(c));
    lemma_associate_links(w1, w1, side, a, c);
    let w2 = w1.apply_all(associate_actions(w1, side, a));
    let w3 = w2.without_related(side, a);
    lemma_without_related(w2, side, a);
    lemma_components_unique_after_removal(w2, side, a);
    lemma_disassociate_links(w3, w3, side, a, c);
    let w4 = w3.apply_all(disassociate_actions(w3, side, a, c));
    // The same entities are touched by both runs: those of `c` that are alive,
    // apart from `a` itself when the relation is symmetric.
    assert forall|x: u64|
        #![trigger associate_touches(w1, side, a, c, x)]
        associate_touches(w1, side, a, c, x) == (has_key(c, x) && w0.alive.contains(x) && !(opp
            == side && x == a)) && disassociate_touches(w3, side, a, c, x) == associate_touches(
            w1,
            side,
            a,
            c,
            x,
        ) by {
        assert(w1.links(opp, x, a) == if opp == side && x == a {
            has_key(c, a)
        } else {
            w0.links(opp, x, a)
        });
        assert(w3.links(side, a, x) == (w2.links(side, a, x) && !(side == side && a == a)));
        assert(w3.links(opp, x, a) == (w2.links(opp, x, a) && !(opp == side && x == a)));
        assert(w2.links(opp, x, a) == (w1.links(opp, x, a) || (has_key(c, x) && w0.alive.contains(
            x,
        ))));
    }
    assert forall|s: Side, x: u64| #![trigger w4.related(s, x)] w4.related(s, x) == w0.related(
        s,
        x,
    ) by {
        if s == opp && associate_touches(w1, side, a, c, x) {
            let data = value_of(c, x)->0;
            assert(w2.related(opp, x) == Some(associated_component(w1, side, a, c, x)));
            assert(w3.related(opp, x) == w2.related(opp, x));
            assert(w4.related(opp, x) == disassociated_component(w3, side, a, x));
            assert(w1.related(opp, x) == w0.related(opp, x));
            if w0.related(opp, x) is Some {
                let current = w0.components(opp)[x];
                assert(current.len() > 0);
                law_push_then_remove(current, a, data);
                assert(without_key(w3.components(opp)[x], a) == current);
            } else {
                lemma_single_entry(a, data);
                law_remove_changes_only_that_entity(seq![(a, data)], a);
                assert(without_key(w3.components(opp)[x], a).len() == 0);
            }
        } else {
            assert(w4.related(s, x) == w3.related(s, x));
            assert(w3.related(s, x) == if s == side && x == a {
                None
            } else {
                w2.related(s, x)
            });
            assert(w2.related(s, x) == w1.related(s, x));
            assert(w1.related(s, x) == if s == side && x == a {
                Some(c)
            } else {
                w0.related(s, x)
            });
        }
    }
    assert(w4.source =~= w0.source) by {
        assert forall|x: u64| #[trigger] w4.source.contains_key(x) == w0.source.contains_key(x) by {
            assert(w4.related(Side::Source, x) == w0.related(Side::Source, x));
        }
        assert forall|x: u64| #[trigger] w4.source.contains_key(x) implies w4.source[x]
            == w0.source[x] by {
            assert(w4.related(Side::Source, x) == w0.related(Side::Source, x));
        }
    }
    assert(w4.target =~= w0.target) by {
        assert forall|x: u64| #[trigger] w4.target.contains_key(x) == w0.target.contains_key(x) by {
            assert(w4.related(Side::Target, x) == w0.related(Side::Target, x));
        }
        assert forall|x: u64| #[trigger] w4.target.contains_key(x) implies w4.target[x]
            == w0.target[x] by {
            assert(w4.related(Side::Target, x) == w0.related(Side::Target, x));
        }
    }
    assert(w4 =~= w0);
}

proof fn lemma_associate_entries_at_rest<T>(
    w: WorldView<T>,
    side: Side,
    a: u64,
    entries: Seq<(u64, T)>,
)
    requires
        forall|b: u64|
            #![trigger has_key(entries, b)]
            has_key(entries, b) && w.alive.contains(b) ==> w.links(w.opposite(side), b, a),
    ensures
        associate_entries(w, side, a, entries) == Seq::<RelationAction<T>>::empty(),
    decreases entries.len(),
{
    if entries.len() > 0 {
        let rest = entries.drop_first();
        assert(has_key(entries, entries[0].0));
        assert forall|b: u64| #![trigger has_key(rest, b)] has_key(rest, b) implies has_key(
            entries,
            b,
        ) by {
            let i = choose|i: int| #![trigger rest[i]] 0 <= i < rest.len() && rest[i].0 == b;
            assert(entries[i + 1] == rest[i]);
        }
        lemma_associate_entries_at_rest(w, side, a, rest);
    }
}

/// The work that follows a replacement or a removal never leaves an entity with an
/// empty component: a component that it changes keeps at least one entity, or is
/// removed.
pub proof fn law_disassociate_leaves_no_empty_component<T>(
    w: WorldView<T>,
    side: Side,
    a: u64,
    old: Seq<(u64, T)>,
)
    requires
        w.components_unique(),
        unique_keys(old),
    ensures
        ({
            let r = w.apply_all(disassociate_actions(w, side, a, old));
            forall|s: Side, x: u64|
                #![trigger r.related(s, x)]
                r.related(s, x) is Some && r.related(s, x) != w.related(s, x) ==> r.components(
                    s,
                )[x].len() > 0
        }),
{
    let r = w.apply_all(disassociate_actions(w, side, a, old));
    let opp = w.opposite(side);
    lemma_disassociate_links(w, w, side, a, old);
    assert forall|s: Side, x: u64|
        #![trigger r.related(s, x)]
        r.related(s, x) is Some && r.related(s, x) != w.related(s, x) implies r.components(
        s,
    )[x].len() > 0 by {
        assert(s == opp && disassociate_touches(w, side, a, old, x));
        assert(r.related(opp, x) == disassociated_component(w, side, a, x));
    }
}

/// Removing a component runs the work that follows twice, both times on the
/// component that was removed. The second run, on the world that the first one
/// left, changes nothing and emits nothing: each entity that loses the relation
/// is told once.
pub proof fn law_second_run_after_removal_is_empty<T>(w0: WorldView<T>, side: Side, a: u64)
    requires
        w0.components_unique(),
        w0.related(side, a) is Some,
    ensures
        ({
            let old = w0.components(side)[a];
            let w1 = w0.without_related(side, a);
            let w2 = w1.apply_all(disassociate_actions(w1, side, a, old));
            disassociate_actions(w2, side, a, old) == Seq::<RelationAction<T>>::empty()
        }),
{
    let opp = w0.opposite(side);
    let old = w0.components(side)[a];
    let w1 = w0.without_related(side, a);
    lemma_without_related(w0, side, a);
    lemma_components_unique_after_removal(w0, side, a);
    lemma_disassociate_links(w1, w1, side, a, old);
    let w2 = w1.apply_all(disassociate_actions(w1, side, a, old));
    assert forall|b: u64|
        #![trigger w2.links(w2.opposite(side), b, a)]
        has_key(old, b) && w2.alive.contains(b) && w2.links(w2.opposite(side), b, a) implies w2.links(
        side,
        a,
        b,
    ) by {
        assert(w2.links(opp, b, a) == (w1.links(opp, b, a) && !disassociate_touches(
            w1,
            side,
            a,
            old,
            b,
        )));
        assert(!w1.links(side, a, b));
    }
    lemma_disassociate_nothing_to_undo(w2, side, a, old);
}

/// The work that follows the replacement of a component by one that still relates
/// every entity the old one related changes nothing and emits nothing.
pub proof fn law_disassociate_after_growth_is_empty<T>(
    w: WorldView<T>,
    side: Side,
    a: u64,
    old: Seq<(u64, T)>,
)
    requires
        forall|y: u64| #![trigger has_key(old, y)] has_key(old, y) ==> w.links(side, a, y),
    ensures
        disassociate_actions(w, side, a, old) == Seq::<RelationAction<T>>::empty(),
{
    lemma_disassociate_nothing_to_undo(w, side, a, old);
}

/// A world is mirrored exactly when it is mirrored with nothing pending.
pub proof fn law_mirrored_is_nothing_pending<T>(w: WorldView<T>)
    ensures
        w.mirrored() <==> w.mirrored_except(Set::<(Side, u64)>::empty()),
{
    lemma_opposite_twice(w);
    if w.mirrored_except(Set::<(Side, u64)>::empty()) {
        assert forall|s: Side, x: u64, y: u64|
            #![trigger w.links(s, x, y)]
            w.links(s, x, y) <==> w.links(w.opposite(s), y, x) by {
            if w.links(w.opposite(s), y, x) {
                assert(w.links(w.opposite(w.opposite(s)), x, y));
            }
        }
    }
}

/// Inserting a component on an entity that held none leaves the relation mirrored
/// except for what was already pending and the new component, whose work is
/// queued.
pub proof fn law_insert_leaves_relation_pending<T>(
    w: WorldView<T>,
    side: Side,
    a: u64,
    c: Seq<(u64, T)>,
    pending: Set<(Side, u64)>,
)
    requires
        w.mirrored_except(pending),
        w.related(side, a) is None,
    ensures
        w.with_related(side, a, c).mirrored_except(pending.insert((side, a))),
{
    let w1 = w.with_related(side, a, c);
    lemma_with_related(w, side, a, c);
    assert forall|s: Side, x: u64, y: u64|
        #![trigger w1.links(s, x, y)]
        w1.links(s, x, y) implies w1.links(w1.opposite(s), y, x) || pending.insert(
        (side, a),
    ).contains((s, x)) by {
        if !(s == side && x == a) {
            assert(w1.links(s, x, y) == w.links(s, x, y));
            assert(w1.links(w.opposite(s), y, x) == if w.opposite(s) == side && y == a {
                has_key(c, x)
            } else {
                w.links(w.opposite(s), y, x)
            });
            assert(!w.links(side, a, x));
        }
    }
}

/// The work that follows an insertion settles that component: afterwards the
/// relation is mirrored except for what else is pending, the inserted component
/// stays as it was, and the world stays well formed. Applied to each queued
/// insertion in turn (and to the work queued by the insertions it makes, which
/// only settles further), a flush of several insertions ends mirrored.
pub proof fn law_associate_settles_pending<T>(
    w: WorldView<T>,
    side: Side,
    a: u64,
    pending: Set<(Side, u64)>,
)
    requires
        w.well_formed(),
        w.mirrored_except(pending),
        w.related(side, a) is Some ==> w.alive.contains(a),
    ensures
        ({
            let r = w.apply_all(associate_actions(w, side, a));
            &&& r.well_formed()
            &&& r.mirrored_except(pending.remove((side, a)))
            &&& r.related(side, a) == w.related(side, a)
            &&& r.alive == w.alive
            &&& r.symmetric == w.symmetric
        }),
{
    let r = w.apply_all(associate_actions(w, side, a));
    let opp = w.opposite(side);
    lemma_opposite_twice(w);
    if w.related(side, a) is Some {
        let entries = w.components(side)[a];
        lemma_associate_links(w, w, side, a, entries);
        assert(!(opp == side && associate_touches(w, side, a, entries, a)));
        assert forall|x: u64| #![trigger has_key(entries, x)] has_key(entries, x) implies w.alive.contains(x) by {
            assert(w.links(side, a, x));
        }
        assert forall|s: Side, x: u64, y: u64|
            #![trigger r.links(s, x, y)]
            r.links(s, x, y) implies r.alive.contains(y) by {
            assert(r.links(s, x, y) == (w.links(s, x, y) || (s == opp && y == a && has_key(entries, x)
                && w.alive.contains(x))));
        }
        assert forall|s: Side, x: u64, y: u64|
            #![trigger r.links(s, x, y)]
            r.links(s, x, y) implies r.links(r.opposite(s), y, x) || pending.remove(
            (side, a),
        ).contains((s, x)) by {
            let t = w.opposite(s);
            assert(r.links(s, x, y) == (w.links(s, x, y) || (s == opp && y == a && has_key(entries, x)
                && w.alive.contains(x))));
            assert(r.links(t, y, x) == (w.links(t, y, x) || (t == opp && x == a && has_key(entries, y)
                && w.alive.contains(y))));
            if s == opp && y == a && has_key(entries, x) {
                assert(w.links(side, a, x));
            } else if s == side && x == a {
                assert(has_key(entries, y));
            }
        }
    } else {
        assert(associate_actions(w, side, a) == Seq::<RelationAction<T>>::empty());
        assert forall|s: Side, x: u64, y: u64|
            #![trigger r.links(s, x, y)]
            r.links(s, x, y) implies r.links(r.opposite(s), y, x) || pending.remove(
            (side, a),
        ).contains((s, x)) by {
            assert(!(s == side && x == a));
        }
    }
}

/// `disassociate_actions` does nothing when every living entity of `old` that
/// relates `a` back is still related by `a`.
proof fn lemma_disassociate_nothing_to_undo<T>(
    w: WorldView<T>,
    side: Side,
    a: u64,
    old: Seq<(u64, T)>,
)
    requires
        forall|b: u64|
            #![trigger w.links(w.opposite(side), b, a)]
            has_key(old, b) && w.alive.contains(b) && w.links(w.opposite(side), b, a) ==> w.links(
                side,
                a,
                b,
            ),
    ensures
        disassociate_actions(w, side, a, old) == Seq::<RelationAction<T>>::empty(),
    decreases old.len(),
{
    if old.len() > 0 {
        let rest = old.drop_first();
        assert(has_key(old, old[0].0));
        assert forall|b: u64| #![trigger has_key(rest, b)] has_key(rest, b) implies has_key(old, b) by {
            let i = choose|i: int| #![trigger rest[i]] 0 <= i < rest.len() && rest[i].0 == b;
            assert(old[i + 1] == rest[i]);
        }
        lemma_disassociate_nothing_to_undo(w, side, a, rest);
    }
}

/// A mirrored relation is at rest: the work that follows an insertion, a
/// replacement or a removal changes nothing and emits nothing when the relation is
/// already mirrored.
pub proof fn law_mirrored_relation_is_at_rest<T>(
    w: WorldView<T>,
    side: Side,
    a: u64,
    old: Seq<(u64, T)>,
)
    requires
        w.well_formed(),
        w.mirrored(),
    ensures
        associate_actions(w, side, a) == Seq::<RelationAction<T>>::empty(),
        disassociate_actions(w, side, a, old) == Seq::<RelationAction<T>>::empty(),
{
    lemma_opposite_twice(w);
    let opp = w.opposite(side);
    assert forall|b: u64|
        #![trigger w.links(w.opposite(side), b, a)]
        w.links(w.opposite(side), b, a) == w.links(side, a, b) by {
        assert(w.links(opp, b, a) == w.links(w.opposite(opp), a, b));
    }
    if w.related(side, a) is Some {
        let entries = w.components(side)[a];
        assert forall|b: u64|
            #![trigger has_key(entries, b)]
            has_key(entries, b) && w.alive.contains(b) implies w.links(w.opposite(side), b, a) by {
            assert(w.links(side, a, b));
        }
        lemma_associate_entries_at_rest(w, side, a, entries);
    }
    lemma_disassociate_nothing_to_undo(w, side, a, old);
}

/// The entities that `entries` relates, in order.
pub open spec fn keys_of<T>(entries: Seq<(u64, T)>) -> Seq<u64> {
    entries.map_values(|p: (u64, T)| p.0)
}

/// `left` and `right` differ at most in the relation data: the same entities are
/// alive, the same entities hold components, relating the same entities in the
/// same order.
pub open spec fn same_shape<T>(left: WorldView<T>, right: WorldView<T>) -> bool {
    &&& left.symmetric == right.symmetric
    &&& left.alive == right.alive
    &&& forall|side: Side, x: u64|
        #![trigger left.related(side, x)]
        #![trigger right.related(side, x)]
        (left.related(side, x) is Some == right.related(side, x) is Some)
    &&& forall|side: Side, x: u64|
        #![trigger left.components(side)[x]]
        #![trigger right.components(side)[x]]
        left.components(side).contains_key(x) ==> keys_of(left.components(side)[x]) == keys_of(
            right.components(side)[x],
        )
}

/// Entries with the same keys agree on which keys they hold and where.
proof fn lemma_same_keys<T>(s1: Seq<(u64, T)>, s2: Seq<(u64, T)>, k: u64)
    requires
        keys_of(s1) == keys_of(s2),
        unique_keys(s1),
    ensures
        s1.len() == s2.len(),
        unique_keys(s2),
        has_key(s1, k) == has_key(s2, k),
        has_key(s1, k) ==> key_index(s1, k) == key_index(s2, k),
        forall|i: int| #![trigger s2[i]] 0 <= i < s2.len() ==> s1[i].0 == s2[i].0,
{
    assert(keys_of(s1).len() == s1.len());
    assert(keys_of(s2).len() == s2.len());
    assert forall|i: int| #![trigger s2[i]] 0 <= i < s2.len() implies s1[i].0 == s2[i].0 by {
        assert(keys_of(s1)[i] == s1[i].0);
        assert(keys_of(s2)[i] == s2[i].0);
    }
    assert forall|i: int, j: int|
        #![trigger s2[i], s2[j]]
        0 <= i < s2.len() && 0 <= j < s2.len() && i != j implies s2[i].0 != s2[j].0 by {
        assert(s1[i].0 == s2[i].0);
        assert(s1[j].0 == s2[j].0);
    }
    if has_key(s1, k) {
        let i = choose|i: int| #![trigger s1[i]] 0 <= i < s1.len() && s1[i].0 == k;
        assert(s2[i].0 == k);
    }
    if has_key(s2, k) {
        let i = choose|i: int| #![trigger s2[i]] 0 <= i < s2.len() && s2[i].0 == k;
        assert(s1[i].0 == k);
    }
    if has_key(s1, k) {
        let i1 = key_index(s1, k);
        let i2 = key_index(s2, k);
        assert(s1[i1].0 == k);
        assert(s2[i2].0 == k);
        assert(s1[i2].0 == k);
    }
}

/// Relating or removing the same key in entries with the same keys gives entries
/// with the same keys.
proof fn lemma_same_keys_after_change<T>(s1: Seq<(u64, T)>, s2: Seq<(u64, T)>, k: u64, v1: T, v2: T)
    requires
        keys_of(s1) == keys_of(s2),
        unique_keys(s1),
    ensures
        keys_of(with_entry(s1, k, v1)) == keys_of(with_entry(s2, k, v2)),
        keys_of(without_key(s1, k)) == keys_of(without_key(s2, k)),
{
    lemma_same_keys(s1, s2, k);
    if has_key(s1, k) {
        let i = key_index(s1, k);
        assert(keys_of(with_entry(s1, k, v1)) =~= keys_of(with_entry(s2, k, v2)));
        let r1 = without_key(s1, k);
        let r2 = without_key(s2, k);
        assert(r1 == s1.remove(i));
        assert(r2 == s2.remove(i));
        assert(keys_of(r1) =~= keys_of(r2)) by {
            assert forall|j: int| 0 <= j < keys_of(r1).len() implies keys_of(r1)[j] == keys_of(r2)[j] by {
                if j < i {
                    assert(r1[j] == s1[j]);
                    assert(r2[j] == s2[j]);
                } else {
                    assert(r1[j] == s1[j + 1]);
                    assert(r2[j] == s2[j + 1]);
                }
            }
        }
    } else {
        assert(keys_of(with_entry(s1, k, v1)) =~= keys_of(with_entry(s2, k, v2)));
    }
}

/// Setting one component to entries with the same keys keeps two worlds of the
/// same shape of the same shape.
proof fn lemma_same_shape_after_set<T>(
    w1: WorldView<T>,
    w2: WorldView<T>,
    side: Side,
    e: u64,
    n1: Seq<(u64, T)>,
    n2: Seq<(u64, T)>,
)
    requires
        same_shape(w1, w2),
        w1.components_unique(),
        keys_of(n1) == keys_of(n2),
        unique_keys(n1),
    ensures
        same_shape(w1.with_related(side, e, n1), w2.with_related(side, e, n2)),
        w1.with_related(side, e, n1).components_unique(),
{
    let r1 = w1.with_related(side, e, n1);
    let r2 = w2.with_related(side, e, n2);
    lemma_with_related(w1, side, e, n1);
    lemma_with_related(w2, side, e, n2);
    lemma_components_unique_after_set(w1, side, e, n1);
    assert forall|s: Side, x: u64|
        #![trigger r1.components(s)[x]]
        #![trigger r2.components(s)[x]]
        r1.components(s).contains_key(x) implies keys_of(r1.components(s)[x]) == keys_of(
            r2.components(s)[x],
        ) by {
        assert(r1.related(s, x) == if s == side && x == e {
            Some(n1)
        } else {
            w1.related(s, x)
        });
        assert(r2.related(s, x) == if s == side && x == e {
            Some(n2)
        } else {
            w2.related(s, x)
        });
    }
    assert forall|s: Side, x: u64|
        #![trigger r1.related(s, x)]
        #![trigger r2.related(s, x)]
        (r1.related(s, x) is Some == r2.related(s, x) is Some) by {
        assert(w1.related(s, x) is Some == w2.related(s, x) is Some);
    }
}

/// Removing one component keeps two worlds of the same shape of the same shape.
proof fn lemma_same_shape_after_removal<T>(
    w1: WorldView<T>,
    w2: WorldView<T>,
    side: Side,
    e: u64,
)
    requires
        same_shape(w1, w2),
        w1.components_unique(),
    ensures
        same_shape(w1.without_related(side, e), w2.without_related(side, e)),
        w1.without_related(side, e).components_unique(),
{
    let r1 = w1.without_related(side, e);
    let r2 = w2.without_related(side, e);
    lemma_without_related(w1, side, e);
    lemma_without_related(w2, side, e);
    lemma_components_unique_after_removal(w1, side, e);
    assert forall|s: Side, x: u64|
        #![trigger r1.components(s)[x]]
        #![trigger r2.components(s)[x]]
        r1.components(s).contains_key(x) implies keys_of(r1.components(s)[x]) == keys_of(
            r2.components(s)[x],
        ) by {
        assert(r1.related(s, x) == w1.related(s, x));
        assert(r2.related(s, x) == w2.related(s, x));
    }
    assert forall|s: Side, x: u64|
        #![trigger r1.related(s, x)]
        #![trigger r2.related(s, x)]
        (r1.related(s, x) is Some == r2.related(s, x) is Some) by {
        assert(w1.related(s, x) is Some == w2.related(s, x) is Some);
    }
}

/// One action and its clone change worlds of the same shape alike.
proof fn lemma_apply_cloned<T: Clone>(
    w1: WorldView<T>,
    w2: WorldView<T>,
    a1: RelationAction<T>,
    a2: RelationAction<T>,
)
    requires
        same_shape(w1, w2),
        w1.components_unique(),
        action_cloned(a1, a2),
    ensures
        same_shape(w1.apply(a1), w2.apply(a2)),
        w1.apply(a1).components_unique(),
{
    match (a1, a2) {
        (
            RelationAction::Create { side, entity, other, data: d1 },
            RelationAction::Create { data: d2, .. },
        ) => {
            lemma_single_entry(other, d1);
            assert(keys_of(seq![(other, d1)]) =~= keys_of(seq![(other, d2)]));
            lemma_same_shape_after_set(w1, w2, side, entity, seq![(other, d1)], seq![(other, d2)]);
        },
        (
            RelationAction::Push { side, entity, other, data: d1 },
            RelationAction::Push { data: d2, .. },
        ) => {
            assert(w1.related(side, entity) is Some == w2.related(side, entity) is Some);
            if w1.related(side, entity) is Some {
                let s1 = w1.components(side)[entity];
                let s2 = w2.components(side)[entity];
                lemma_same_keys_after_change(s1, s2, other, d1, d2);
                law_push_changes_only_that_entity(s1, other, d1);
                lemma_same_shape_after_set(
                    w1,
                    w2,
                    side,
                    entity,
                    with_entry(s1, other, d1),
                    with_entry(s2, other, d2),
                );
            }
        },
        (RelationAction::Detach { side, entity, other }, _) => {
            assert(w1.related(side, entity) is Some == w2.related(side, entity) is Some);
            if w1.related(side, entity) is Some {
                let s1 = w1.components(side)[entity];
                let s2 = w2.components(side)[entity];
                lemma_same_keys_after_change(s1, s2, other, s1[0].1, s1[0].1);
                law_remove_changes_only_that_entity(s1, other);
                lemma_same_shape_after_set(
                    w1,
                    w2,
                    side,
                    entity,
                    without_key(s1, other),
                    without_key(s2, other),
                );
            }
        },
        (RelationAction::Drop { side, entity }, _) => {
            lemma_same_shape_after_removal(w1, w2, side, entity);
        },
        _ => {},
    }
}

/// Actions and their clones change a world alike, but for the relation data: the
/// same entities end up alive, holding components that relate the same entities.
/// So what the laws state of the actions that `associate_actions` and
/// `disassociate_actions` describe holds of the actions that `associate` and
/// `disassociate` return.
pub proof fn law_cloned_actions_change_links_alike<T: Clone>(
    w: WorldView<T>,
    bases: Seq<RelationAction<T>>,
    copies: Seq<RelationAction<T>>,
)
    requires
        w.components_unique(),
        actions_cloned(bases, copies),
    ensures
        same_shape(w.apply_all(bases), w.apply_all(copies)),
        w.apply_all(bases).components_unique(),
        forall|s: Side, x: u64, y: u64|
            #![trigger w.apply_all(copies).links(s, x, y)]
            w.apply_all(copies).links(s, x, y) == w.apply_all(bases).links(s, x, y),
{
    lemma_apply_all_cloned(w, w, bases, copies);
    let r1 = w.apply_all(bases);
    let r2 = w.apply_all(copies);
    assert forall|s: Side, x: u64, y: u64|
        #![trigger r2.links(s, x, y)]
        r2.links(s, x, y) == r1.links(s, x, y) by {
        assert(r1.related(s, x) is Some == r2.related(s, x) is Some);
        if r1.components(s).contains_key(x) {
            lemma_same_keys(r1.components(s)[x], r2.components(s)[x], y);
        }
    }
}

proof fn lemma_apply_all_cloned<T: Clone>(
    w1: WorldView<T>,
    w2: WorldView<T>,
    bases: Seq<RelationAction<T>>,
    copies: Seq<RelationAction<T>>,
)
    requires
        same_shape(w1, w2),
        w1.components_unique(),
        actions_cloned(bases, copies),
    ensures
        same_shape(w1.apply_all(bases), w2.apply_all(copies)),
        w1.apply_all(bases).components_unique(),
    decreases bases.len(),
{
    if bases.len() > 0 {
        assert(action_cloned(bases[0], copies[0]));
        lemma_apply_cloned(w1, w2, bases[0], copies[0]);
        assert(actions_cloned(bases.drop_first(), copies.drop_first())) by {
            assert forall|i: int|
                #![trigger copies.drop_first()[i]]
                0 <= i < copies.drop_first().len() implies action_cloned(
                bases.drop_first()[i],
                copies.drop_first()[i],
            ) by {
                assert(copies.drop_first()[i] == copies[i + 1]);
                assert(bases.drop_first()[i] == bases[i + 1]);
            }
        }
        lemma_apply_all_cloned(
            w1.apply(bases[0]),
            w2.apply(copies[0]),
            bases.drop_first(),
            copies.drop_first(),
        );
    }
}

/// The actions of `associate_entries` come in pairs, a change that makes an entity
/// relate `a` back followed by `Added(a, that entity)`; the entities are distinct,
/// and they are exactly those the work touches.
pub(crate) proof fn lemma_associate_pairs<T>(w: WorldView<T>, side: Side, a: u64, entries: Seq<(u64, T)>)
    requires
        unique_keys(entries),
    ensures
        ({
            let acts = associate_entries(w, side, a, entries);
            &&& reports_additions(acts, w.opposite(side), a)
            &&& changes_distinct_entities(acts)
            &&& forall|i: int|
                #![trigger acts[i]]
                0 <= i < acts.len() && i % 2 == 0 ==> associate_touches(
                    w,
                    side,
                    a,
                    entries,
                    action_entity(acts[i]),
                )
            &&& forall|x: u64|
                #![trigger associate_touches(w, side, a, entries, x)]
                associate_touches(w, side, a, entries, x) ==> exists|i: int|
                    #![trigger acts[i]]
                    0 <= i < acts.len() && i % 2 == 0 && action_entity(acts[i]) == x
        }),
    decreases entries.len(),
{
    let opp = w.opposite(side);
    if entries.len() > 0 {
        let b = entries[0].0;
        let data = entries[0].1;
        let rest = entries.drop_first();
        lemma_unique_drop_first(entries);
        lemma_associate_pairs(w, side, a, rest);
        let tail = associate_entries(w, side, a, rest);
        let acts = associate_entries(w, side, a, entries);
        assert forall|x: u64| x != b implies #[trigger] associate_touches(w, side, a, entries, x)
            == associate_touches(w, side, a, rest, x) by {
            assert(has_key(rest, x) == has_key(entries, x));
        }
        assert forall|i: int|
            #![trigger tail[i]]
            0 <= i < tail.len() && i % 2 == 0 implies action_entity(tail[i]) != b by {
            assert(associate_touches(w, side, a, rest, action_entity(tail[i])));
        }
        if !w.alive.contains(b) || w.links(opp, b, a) {
            assert(acts == tail);
            assert(!associate_touches(w, side, a, entries, b));
        } else {
            let change = if w.components(opp).contains_key(b) {
                RelationAction::Push { side: opp, entity: b, other: a, data }
            } else {
                RelationAction::Create { side: opp, entity: b, other: a, data }
            };
            let notify = RelationAction::Notify(RelationMessage::Added(a, b));
            assert(acts == seq![change, notify] + tail);
            assert forall|i: int| 2 <= i < acts.len() implies #[trigger] acts[i] == tail[i - 2]
                && (i % 2 == 0) == ((i - 2) % 2 == 0) by {}
            assert(acts[0] == change);
            assert(acts[1] == notify);
            assert(reports_additions(acts, opp, a)) by {
                assert forall|i: int|
                    #![trigger acts[i]]
                    0 <= i < acts.len() implies if i % 2 == 0 {
                    adds_link_to(acts[i], opp, a) && acts[i + 1] == RelationAction::<T>::Notify(
                        RelationMessage::Added(a, action_entity(acts[i])),
                    )
                } else {
                    acts[i] is Notify
                } by {
                    if i >= 2 {
                        assert(acts[i] == tail[i - 2]);
                        if i % 2 == 0 {
                            assert(acts[i + 1] == tail[i - 1]);
                        }
                    }
                }
            }
            assert(changes_distinct_entities(acts)) by {
                assert forall|i: int, j: int|
                    #![trigger acts[i], acts[j]]
                    0 <= i < acts.len() && 0 <= j < acts.len() && i % 2 == 0 && j % 2 == 0 && i
                        != j implies action_entity(acts[i]) != action_entity(acts[j]) by {
                    if i >= 2 {
                        assert(acts[i] == tail[i - 2]);
                    }
                    if j >= 2 {
                        assert(acts[j] == tail[j - 2]);
                    }
                }
            }
            assert forall|i: int|
                #![trigger acts[i]]
                0 <= i < acts.len() && i % 2 == 0 implies associate_touches(
                w,
                side,
                a,
                entries,
                action_entity(acts[i]),
            ) by {
                if i >= 2 {
                    assert(acts[i] == tail[i - 2]);
                    assert(associate_touches(w, side, a, rest, action_entity(tail[i - 2])));
                }
            }
            assert forall|x: u64|
                #![trigger associate_touches(w, side, a, entries, x)]
                associate_touches(w, side, a, entries, x) implies exists|i: int|
                #![trigger acts[i]]
                0 <= i < acts.len() && i % 2 == 0 && action_entity(acts[i]) == x by {
                if x == b {
                    assert(action_entity(acts[0]) == b);
                } else {
                    let j = choose|j: int|
                        #![trigger tail[j]]
                        0 <= j < tail.len() && j % 2 == 0 && action_entity(tail[j]) == x;
                    assert(acts[j + 2] == tail[j]);
                }
            }
        }
    }
}

/// Putting a pair in front of a run of pairs: positions shift by two.
proof fn lemma_shift_two<T>(
    first: RelationAction<T>,
    second: RelationAction<T>,
    tail: Seq<RelationAction<T>>,
)
    ensures
        ({
            let acts = seq![first, second] + tail;
            &&& acts.len() == tail.len() + 2
            &&& acts[0] == first
            &&& acts[1] == second
            &&& forall|i: int|
                2 <= i < acts.len() ==> #[trigger] acts[i] == tail[i - 2] && (i % 2 == 0) == ((i
                    - 2) % 2 == 0)
        }),
{
}

/// A removal pair in front of a run of removal pairs is a run of removal pairs.
proof fn lemma_prepend_removal<T>(change: RelationAction<T>, tail: Seq<RelationAction<T>>, side: Side, a: u64)
    requires
        reports_removals(tail, side, a),
        removes_link_to(change, side, a),
    ensures
        reports_removals(
            seq![change, RelationAction::Notify(RelationMessage::Removed(a, action_entity(change)))]
                + tail,
            side,
            a,
        ),
{
    let notify = RelationAction::Notify(RelationMessage::Removed(a, action_entity(change)));
    let acts = seq![change, notify] + tail;
    lemma_shift_two(change, notify, tail);
    assert forall|i: int|
        #![trigger acts[i]]
        0 <= i < acts.len() implies if i % 2 == 0 {
        removes_link_to(acts[i], side, a) && acts[i + 1] == RelationAction::<T>::Notify(
            RelationMessage::Removed(a, action_entity(acts[i])),
        )
    } else {
        acts[i] is Notify
    } by {
        if i >= 2 {
            assert(acts[i] == tail[i - 2]);
            if i % 2 == 0 {
                assert(acts[i + 1] == tail[i - 1]);
            }
        }
    }
}

/// A pair whose change concerns an entity that no change of a run concerns keeps
/// the entities of the changes distinct.
proof fn lemma_prepend_distinct<T>(
    change: RelationAction<T>,
    notify: RelationAction<T>,
    tail: Seq<RelationAction<T>>,
)
    requires
        changes_distinct_entities(tail),
        forall|i: int|
            #![trigger tail[i]]
            0 <= i < tail.len() && i % 2 == 0 ==> action_entity(tail[i]) != action_entity(change),
    ensures
        changes_distinct_entities(seq![change, notify] + tail),
{
    let acts = seq![change, notify] + tail;
    lemma_shift_two(change, notify, tail);
    assert forall|i: int, j: int|
        #![trigger acts[i], acts[j]]
        0 <= i < acts.len() && 0 <= j < acts.len() && i % 2 == 0 && j % 2 == 0 && i != j implies action_entity(
        acts[i],
    ) != action_entity(acts[j]) by {
        if i >= 2 {
            assert(acts[i] == tail[i - 2]);
        }
        if j >= 2 {
            assert(acts[j] == tail[j - 2]);
        }
    }
}

/// The actions of `disassociate_actions` come in pairs, a change that makes an
/// entity stop relating `a` followed by `Removed(a, that entity)`; the entities
/// are distinct, and they are exactly those the work touches.
pub(crate) proof fn lemma_disassociate_pairs<T>(w: WorldView<T>, side: Side, a: u64, old: Seq<(u64, T)>)
    requires
        unique_keys(old),
    ensures
        ({
            let acts = disassociate_actions(w, side, a, old);
            &&& reports_removals(acts, w.opposite(side), a)
            &&& changes_distinct_entities(acts)
            &&& forall|i: int|
                #![trigger acts[i]]
                0 <= i < acts.len() && i % 2 == 0 ==> disassociate_touches(
                    w,
                    side,
                    a,
                    old,
                    action_entity(acts[i]),
                )
            &&& forall|x: u64|
                #![trigger disassociate_touches(w, side, a, old, x)]
                disassociate_touches(w, side, a, old, x) ==> exists|i: int|
                    #![trigger acts[i]]
                    0 <= i < acts.len() && i % 2 == 0 && action_entity(acts[i]) == x
        }),
    decreases old.len(),
{
    let opp = w.opposite(side);
    if old.len() > 0 {
        let b = old[0].0;
        let rest = old.drop_first();
        lemma_unique_drop_first(old);
        lemma_disassociate_pairs(w, side, a, rest);
        let tail = disassociate_actions(w, side, a, rest);
        let acts = disassociate_actions(w, side, a, old);
        assert forall|x: u64| x != b implies #[trigger] disassociate_touches(w, side, a, old, x)
            == disassociate_touches(w, side, a, rest, x) by {
            assert(has_key(rest, x) == has_key(old, x));
        }
        assert forall|i: int|
            #![trigger tail[i]]
            0 <= i < tail.len() && i % 2 == 0 implies action_entity(tail[i]) != b by {
            assert(disassociate_touches(w, side, a, rest, action_entity(tail[i])));
        }
        if !(w.alive.contains(b) && w.links(opp, b, a) && !w.links(side, a, b)) {
            assert(acts == tail);
            assert(!disassociate_touches(w, side, a, old, b));
        } else {
            let change = acts[0];
            let notify = RelationAction::Notify(RelationMessage::Removed(a, b));
            assert(acts == seq![change, notify] + tail);
            assert(removes_link_to(change, opp, a) && action_entity(change) == b);
            lemma_shift_two(change, notify, tail);
            lemma_prepend_removal(change, tail, opp, a);
            lemma_prepend_distinct(change, notify, tail);
            assert forall|i: int|
                #![trigger acts[i]]
                0 <= i < acts.len() && i % 2 == 0 implies disassociate_touches(
                w,
                side,
                a,
                old,
                action_entity(acts[i]),
            ) by {
                if i >= 2 {
                    assert(acts[i] == tail[i - 2]);
                    assert(disassociate_touches(w, side, a, rest, action_entity(tail[i - 2])));
                }
            }
            assert forall|x: u64|
                #![trigger disassociate_touches(w, side, a, old, x)]
                disassociate_touches(w, side, a, old, x) implies exists|i: int|
                #![trigger acts[i]]
                0 <= i < acts.len() && i % 2 == 0 && action_entity(acts[i]) == x by {
                if x == b {
                    assert(action_entity(acts[0]) == b);
                } else {
                    let j = choose|j: int|
                        #![trigger tail[j]]
                        0 <= j < tail.len() && j % 2 == 0 && action_entity(tail[j]) == x;
                    assert(acts[j + 2] == tail[j]);
                }
            }
        }
    }
}

/// Clones of a run of addition pairs are a run of addition pairs about the same
/// entities.
pub proof fn lemma_cloned_reports_additions<T: Clone>(
    bases: Seq<RelationAction<T>>,
    copies: Seq<RelationAction<T>>,
    side: Side,
    a: u64,
)
    requires
        actions_cloned(bases, copies),
        reports_additions(bases, side, a),
    ensures
        reports_additions(copies, side, a),
        forall|i: int|
            #![trigger copies[i]]
            0 <= i < copies.len() ==> action_entity(copies[i]) == action_entity(bases[i]),
        changes_distinct_entities(bases) ==> changes_distinct_entities(copies),
{
    assert forall|i: int|
        #![trigger copies[i]]
        0 <= i < copies.len() implies action_entity(copies[i]) == action_entity(bases[i])
        && adds_link_to(copies[i], side, a) == adds_link_to(bases[i], side, a) && (
        bases[i] is Notify ==> copies[i] == bases[i]) && (copies[i] is Notify == bases[i] is Notify) by {
        assert(action_cloned(bases[i], copies[i]));
    }
    assert forall|i: int|
        #![trigger copies[i]]
        0 <= i < copies.len() implies if i % 2 == 0 {
        adds_link_to(copies[i], side, a) && copies[i + 1] == RelationAction::<T>::Notify(
            RelationMessage::Added(a, action_entity(copies[i])),
        )
    } else {
        copies[i] is Notify
    } by {
        assert(action_cloned(bases[i], copies[i]));
        if i % 2 == 0 {
            assert(bases[i + 1] is Notify);
            assert(action_cloned(bases[i + 1], copies[i + 1]));
        }
    }
}

/// The work that follows an insertion tells of each relation it completes, and of
/// nothing else: its actions come in pairs, a change that makes an entity `b` relate
/// `a` back on the opposite side, then the message `Added(a, b)`; the entities `b`
/// are distinct, each of them did not relate `a` back before and does after, and
/// every entity that comes to relate `a` back is one of them.
pub proof fn law_associate_reports_each_addition<T>(w: WorldView<T>, side: Side, a: u64)
    requires
        w.components_unique(),
    ensures
        ({
            let acts = associate_actions(w, side, a);
            let r = w.apply_all(acts);
            let opp = w.opposite(side);
            &&& reports_additions(acts, opp, a)
            &&& changes_distinct_entities(acts)
            &&& forall|i: int|
                #![trigger acts[i]]
                0 <= i < acts.len() && i % 2 == 0 ==> !w.links(opp, action_entity(acts[i]), a)
                    && r.links(opp, action_entity(acts[i]), a)
            &&& forall|x: u64|
                #![trigger r.links(opp, x, a)]
                r.links(opp, x, a) && !w.links(opp, x, a) ==> exists|i: int|
                    #![trigger acts[i]]
                    0 <= i < acts.len() && i % 2 == 0 && action_entity(acts[i]) == x
        }),
{
    let acts = associate_actions(w, side, a);
    let r = w.apply_all(acts);
    let opp = w.opposite(side);
    if w.related(side, a) is Some {
        let entries = w.components(side)[a];
        lemma_associate_pairs(w, side, a, entries);
        lemma_associate_links(w, w, side, a, entries);
        assert forall|i: int|
            #![trigger acts[i]]
            0 <= i < acts.len() && i % 2 == 0 implies !w.links(opp, action_entity(acts[i]), a)
            && r.links(opp, action_entity(acts[i]), a) by {
            assert(associate_touches(w, side, a, entries, action_entity(acts[i])));
        }
        assert forall|x: u64|
            #![trigger r.links(opp, x, a)]
            r.links(opp, x, a) && !w.links(opp, x, a) implies exists|i: int|
            #![trigger acts[i]]
            0 <= i < acts.len() && i % 2 == 0 && action_entity(acts[i]) == x by {
            assert(associate_touches(w, side, a, entries, x));
        }
    } else {
        assert(acts == Seq::<RelationAction<T>>::empty());
        assert(r == w);
    }
}

/// What the list that `associate` returns tells: the same as the actions it stands
/// for, as clones change no message, side, entity or related entity.
pub proof fn law_associate_result_reports_each_addition<T: Clone>(
    w: WorldView<T>,
    side: Side,
    a: u64,
    actions: Seq<RelationAction<T>>,
)
    requires
        w.components_unique(),
        actions_cloned(associate_actions(w, side, a), actions),
    ensures
        ({
            let r = w.apply_all(actions);
            let opp = w.opposite(side);
            &&& reports_additions(actions, opp, a)
            &&& changes_distinct_entities(actions)
            &&& forall|i: int|
                #![trigger actions[i]]
                0 <= i < actions.len() && i % 2 == 0 ==> !w.links(opp, action_entity(actions[i]), a)
                    && r.links(opp, action_entity(actions[i]), a)
            &&& forall|x: u64|
                #![trigger r.links(opp, x, a)]
                r.links(opp, x, a) && !w.links(opp, x, a) ==> exists|i: int|
                    #![trigger actions[i]]
                    0 <= i < actions.len() && i % 2 == 0 && action_entity(actions[i]) == x
        }),
{
    let bases = associate_actions(w, side, a);
    let opp = w.opposite(side);
    law_associate_reports_each_addition(w, side, a);
    lemma_cloned_reports_additions(bases, actions, opp, a);
    law_cloned_actions_change_links_alike(w, bases, actions);
    let r = w.apply_all(actions);
    let rb = w.apply_all(bases);
    assert forall|i: int|
        #![trigger actions[i]]
        0 <= i < actions.len() && i % 2 == 0 implies !w.links(opp, action_entity(actions[i]), a)
        && r.links(opp, action_entity(actions[i]), a) by {
        assert(action_entity(actions[i]) == action_entity(bases[i]));
        assert(rb.links(opp, action_entity(bases[i]), a));
    }
    assert forall|x: u64|
        #![trigger r.links(opp, x, a)]
        r.links(opp, x, a) && !w.links(opp, x, a) implies exists|i: int|
        #![trigger actions[i]]
        0 <= i < actions.len() && i % 2 == 0 && action_entity(actions[i]) == x by {
        assert(rb.links(opp, x, a));
        let i = choose|i: int|
            #![trigger bases[i]]
            0 <= i < bases.len() && i % 2 == 0 && action_entity(bases[i]) == x;
        assert(action_entity(actions[i]) == action_entity(bases[i]));
    }
}

/// The work that follows a replacement or a removal tells of each relation it
/// undoes, and of nothing else: its actions come in pairs, a change that makes an
/// entity `b` stop relating `a` on the opposite side, then the message
/// `Removed(a, b)`; the entities `b` are distinct, each of them related `a` back
/// before and does not after, and every entity that stops relating `a` back is one
/// of them.
pub proof fn law_disassociate_reports_each_removal<T>(
    w: WorldView<T>,
    side: Side,
    a: u64,
    old: Seq<(u64, T)>,
)
    requires
        w.components_unique(),
        unique_keys(old),
    ensures
        ({
            let acts = disassociate_actions(w, side, a, old);
            let r = w.apply_all(acts);
            let opp = w.opposite(side);
            &&& reports_removals(acts, opp, a)
            &&& changes_distinct_entities(acts)
            &&& forall|i: int|
                #![trigger acts[i]]
                0 <= i < acts.len() && i % 2 == 0 ==> w.links(opp, action_entity(acts[i]), a)
                    && !r.links(opp, action_entity(acts[i]), a)
            &&& forall|x: u64|
                #![trigger r.links(opp, x, a)]
                w.links(opp, x, a) && !r.links(opp, x, a) ==> exists|i: int|
                    #![trigger acts[i]]
                    0 <= i < acts.len() && i % 2 == 0 && action_entity(acts[i]) == x
        }),
{
    let acts = disassociate_actions(w, side, a, old);
    let r = w.apply_all(acts);
    let opp = w.opposite(side);
    lemma_disassociate_pairs(w, side, a, old);
    lemma_disassociate_links(w, w, side, a, old);
    assert forall|i: int|
        #![trigger acts[i]]
        0 <= i < acts.len() && i % 2 == 0 implies w.links(opp, action_entity(acts[i]), a)
        && !r.links(opp, action_entity(acts[i]), a) by {
        assert(disassociate_touches(w, side, a, old, action_entity(acts[i])));
    }
    assert forall|x: u64|
        #![trigger r.links(opp, x, a)]
        w.links(opp, x, a) && !r.links(opp, x, a) implies exists|i: int|
        #![trigger acts[i]]
        0 <= i < acts.len() && i % 2 == 0 && action_entity(acts[i]) == x by {
        assert(disassociate_touches(w, side, a, old, x));
    }
}

} // verus!
