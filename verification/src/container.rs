use vstd::prelude::*;
use vstd::std_specs::cmp::PartialEqSpec;

verus! {

/// Whether `key` occurs among the keys of `entries`.
pub open spec fn has_key<T>(entries: Seq<(u64, T)>, key: u64) -> bool {
    exists|i: int| #![trigger entries[i]] 0 <= i < entries.len() && entries[i].0 == key
}

/// No key occurs twice in `entries`.
pub open spec fn unique_keys<T>(entries: Seq<(u64, T)>) -> bool {
    forall|i: int, j: int|
        #![trigger entries[i], entries[j]]
        0 <= i < entries.len() && 0 <= j < entries.len() && i != j ==> entries[i].0 != entries[j].0
}

/// The position at which `key` stands in `entries` (meaningful when `has_key`).
pub open spec fn key_index<T>(entries: Seq<(u64, T)>, key: u64) -> int {
    choose|i: int| #![trigger entries[i]] 0 <= i < entries.len() && entries[i].0 == key
}

/// The data that `entries` holds for `key`, if any.
pub open spec fn value_of<T>(entries: Seq<(u64, T)>, key: u64) -> Option<T> {
    if has_key(entries, key) {
        Some(entries[key_index(entries, key)].1)
    } else {
        None
    }
}

/// `entries` after relating `key` to `value`: an existing entry for `key` keeps its
/// place and takes the new value, otherwise the entry is appended.
pub open spec fn with_entry<T>(entries: Seq<(u64, T)>, key: u64, value: T) -> Seq<(u64, T)> {
    if has_key(entries, key) {
        entries.update(key_index(entries, key), (key, value))
    } else {
        entries.push((key, value))
    }
}

/// `entries` without the entry for `key`; the others keep their order.
pub open spec fn without_key<T>(entries: Seq<(u64, T)>, key: u64) -> Seq<(u64, T)> {
    if has_key(entries, key) {
        entries.remove(key_index(entries, key))
    } else {
        entries
    }
}

/// `items` related one after the other to an initially empty container.
pub open spec fn collect_entries<T>(items: Seq<(u64, T)>) -> Seq<(u64, T)>
    decreases items.len(),
{
    if items.len() == 0 {
        Seq::empty()
    } else {
        with_entry(collect_entries(items.drop_last()), items.last().0, items.last().1)
    }
}

/// `copy` holds the keys of `base` in the same order, each with a clone of its data.
pub open spec fn entries_cloned<T: Clone>(base: Seq<(u64, T)>, copy: Seq<(u64, T)>) -> bool {
    &&& copy.len() == base.len()
    &&& forall|i: int|
        #![trigger copy[i]]
        0 <= i < copy.len() ==> copy[i].0 == base[i].0 && cloned(base[i].1, copy[i].1)
}

/// Appending an entry adds exactly its key.
pub proof fn lemma_has_key_push<T>(entries: Seq<(u64, T)>, entry: (u64, T))
    ensures
        forall|y: u64|
            #![trigger has_key(entries.push(entry), y)]
            has_key(entries.push(entry), y) == (has_key(entries, y) || y == entry.0),
{
    let pushed = entries.push(entry);
    assert forall|y: u64| #![trigger has_key(pushed, y)] has_key(pushed, y) == (has_key(entries, y) || y == entry.0) by {
        if has_key(entries, y) {
            let i = choose|i: int| #![trigger entries[i]] 0 <= i < entries.len() && entries[i].0 == y;
            assert(pushed[i] == entries[i]);
        }
        if y == entry.0 {
            assert(pushed[entries.len() as int] == entry);
        }
        if has_key(pushed, y) {
            let i = choose|i: int| #![trigger pushed[i]] 0 <= i < pushed.len() && pushed[i].0 == y;
            if i < entries.len() {
                assert(entries[i] == pushed[i]);
            }
        }
    }
}

/// Relating a key keeps keys unique, adds exactly that key, gives it the new value
/// and leaves the values of the other keys as they were.
pub proof fn law_push_changes_only_that_entity<T>(entries: Seq<(u64, T)>, key: u64, value: T)
    requires
        unique_keys(entries),
    ensures
        unique_keys(with_entry(entries, key, value)),
        forall|y: u64|
            #![trigger has_key(with_entry(entries, key, value), y)]
            has_key(with_entry(entries, key, value), y) == (has_key(entries, y) || y == key),
        value_of(with_entry(entries, key, value), key) == Some(value),
        forall|y: u64|
            #![trigger value_of(with_entry(entries, key, value), y)]
            y != key ==> value_of(with_entry(entries, key, value), y) == value_of(entries, y),
{
    let result = with_entry(entries, key, value);
    if has_key(entries, key) {
        let k = key_index(entries, key);
        assert(0 <= k < entries.len() && entries[k].0 == key);
        assert(result == entries.update(k, (key, value)));
        assert forall|i: int, j: int|
            #![trigger result[i], result[j]]
            0 <= i < result.len() && 0 <= j < result.len() && i != j implies result[i].0
            != result[j].0 by {
            assert(result[i].0 == entries[i].0);
            assert(result[j].0 == entries[j].0);
        }
        assert forall|y: u64| #![trigger has_key(result, y)] has_key(result, y) == (has_key(entries, y) || y == key) by {
            if has_key(entries, y) {
                let i = choose|i: int| #![trigger entries[i]] 0 <= i < entries.len() && entries[i].0 == y;
                assert(result[i].0 == y);
            }
            if has_key(result, y) {
                let i = choose|i: int| #![trigger result[i]] 0 <= i < result.len() && result[i].0 == y;
                assert(entries[i].0 == y);
            }
        }
        assert(result[k] == (key, value));
        let kk = key_index(result, key);
        assert(result[kk].0 == key);
        assert(kk == k);
        assert forall|y: u64| #![trigger value_of(result, y)] y != key implies value_of(result, y) == value_of(
            entries,
            y,
        ) by {
            if has_key(entries, y) {
                let j = key_index(entries, y);
                let jj = key_index(result, y);
                assert(entries[j].0 == y);
                assert(result[jj].0 == y);
                assert(result[j].0 == y);
                assert(jj == j);
            }
        }
    } else {
        lemma_has_key_push(entries, (key, value));
        assert(result == entries.push((key, value)));
        let n = entries.len() as int;
        assert forall|i: int, j: int|
            #![trigger result[i], result[j]]
            0 <= i < result.len() && 0 <= j < result.len() && i != j implies result[i].0
            != result[j].0 by {
            if i < n && j < n {
                assert(result[i] == entries[i]);
                assert(result[j] == entries[j]);
            } else if i < n {
                assert(result[i] == entries[i]);
            } else if j < n {
                assert(result[j] == entries[j]);
            }
        }
        assert(result[n].0 == key);
        let kk = key_index(result, key);
        assert(result[kk].0 == key);
        if kk < n {
            assert(entries[kk].0 == key);
        }
        assert forall|y: u64| #![trigger value_of(result, y)] y != key implies value_of(result, y) == value_of(
            entries,
            y,
        ) by {
            if has_key(entries, y) {
                let j = key_index(entries, y);
                let jj = key_index(result, y);
                assert(entries[j].0 == y);
                assert(result[jj].0 == y);
                assert(result[j] == entries[j]);
                assert(jj == j);
            }
        }
    }
}

/// Removing a key keeps keys unique, takes exactly that key away and leaves the
/// values of the other keys as they were.
pub proof fn law_remove_changes_only_that_entity<T>(entries: Seq<(u64, T)>, key: u64)
    requires
        unique_keys(entries),
    ensures
        unique_keys(without_key(entries, key)),
        forall|y: u64|
            #![trigger has_key(without_key(entries, key), y)]
            has_key(without_key(entries, key), y) == (has_key(entries, y) && y != key),
        forall|y: u64|
            #![trigger value_of(without_key(entries, key), y)]
            y != key ==> value_of(without_key(entries, key), y) == value_of(entries, y),
        has_key(entries, key) ==> without_key(entries, key).len() == entries.len() - 1,
{
    let result = without_key(entries, key);
    if has_key(entries, key) {
        let k = key_index(entries, key);
        assert(0 <= k < entries.len() && entries[k].0 == key);
        assert(result == entries.remove(k));
        // position in `result` of position `i` of `entries`, for `i != k`
        assert forall|i: int|
            #![trigger result[i]]
            0 <= i < result.len() implies result[i] == (if i < k {
                entries[i]
            } else {
                entries[i + 1]
            }) by {}
        assert forall|i: int, j: int|
            #![trigger result[i], result[j]]
            0 <= i < result.len() && 0 <= j < result.len() && i != j implies result[i].0
            != result[j].0 by {
            let ii = if i < k {
                i
            } else {
                i + 1
            };
            let jj = if j < k {
                j
            } else {
                j + 1
            };
            assert(result[i] == entries[ii]);
            assert(result[j] == entries[jj]);
        }
        assert forall|y: u64| #![trigger has_key(result, y)] has_key(result, y) == (has_key(entries, y) && y != key) by {
            if has_key(result, y) {
                let i = choose|i: int| #![trigger result[i]] 0 <= i < result.len() && result[i].0 == y;
                let ii = if i < k {
                    i
                } else {
                    i + 1
                };
                assert(result[i] == entries[ii]);
                assert(ii != k);
            }
            if has_key(entries, y) && y != key {
                let i = choose|i: int| #![trigger entries[i]] 0 <= i < entries.len() && entries[i].0 == y;
                assert(i != k);
                if i < k {
                    assert(result[i] == entries[i]);
                } else {
                    assert(result[i - 1] == entries[i]);
                }
            }
        }
        assert forall|y: u64| #![trigger value_of(result, y)] y != key implies value_of(result, y) == value_of(
            entries,
            y,
        ) by {
            if has_key(result, y) {
                let jj = key_index(result, y);
                assert(result[jj].0 == y);
                let j = if jj < k {
                    jj
                } else {
                    jj + 1
                };
                assert(result[jj] == entries[j]);
                let e = key_index(entries, y);
                assert(entries[e].0 == y);
                assert(e == j);
            }
        }
    }
}

/// Relating an entity that was not held and then removing it gives back the
/// container as it was, and the removal gives back the data.
pub proof fn law_push_then_remove<T>(entries: Seq<(u64, T)>, key: u64, value: T)
    requires
        unique_keys(entries),
        !has_key(entries, key),
    ensures
        without_key(with_entry(entries, key, value), key) == entries,
        value_of(with_entry(entries, key, value), key) == Some(value),
{
    law_push_changes_only_that_entity(entries, key, value);
    let pushed = with_entry(entries, key, value);
    assert(pushed == entries.push((key, value)));
    let n = entries.len() as int;
    assert(pushed[n].0 == key);
    let k = key_index(pushed, key);
    assert(pushed[k].0 == key);
    if k < n {
        assert(entries[k].0 == key);
    }
    assert(k == n);
    assert(pushed.remove(n) =~= entries);
}

/// `left` and `right` hold the same entities, with equal data (when both have
/// unique keys); the order in which they hold them does not matter.
pub open spec fn same_entries<T: PartialEq>(left: Seq<(u64, T)>, right: Seq<(u64, T)>) -> bool {
    &&& left.len() == right.len()
    &&& forall|i: int|
        #![trigger left[i]]
        0 <= i < left.len() ==> has_key(right, left[i].0) && left[i].1.eq_spec(
            &right[key_index(right, left[i].0)].1,
        )
}

/// For data whose equality is `==`, two containers are equal exactly when they
/// hold the same set of (entity, data) pairs.
pub proof fn law_equality_is_equality_of_pairs<T: PartialEq>(
    left: Seq<(u64, T)>,
    right: Seq<(u64, T)>,
)
    requires
        unique_keys(left),
        unique_keys(right),
        forall|x: T, y: T| #[trigger] x.eq_spec(&y) <==> x == y,
    ensures
        same_entries(left, right) <==> left.to_set() == right.to_set(),
{
    broadcast use vstd::seq_lib::seq_to_set_is_finite;

    assert(left.no_duplicates()) by {
        assert forall|i: int, j: int|
            0 <= i < left.len() && 0 <= j < left.len() && i != j implies left[i] != left[j] by {
            assert(left[i].0 != left[j].0);
        }
    }
    assert(right.no_duplicates()) by {
        assert forall|i: int, j: int|
            0 <= i < right.len() && 0 <= j < right.len() && i != j implies right[i]
            != right[j] by {
            assert(right[i].0 != right[j].0);
        }
    }
    left.unique_seq_to_set();
    right.unique_seq_to_set();
    if same_entries(left, right) {
        assert forall|p: (u64, T)| #[trigger] left.to_set().contains(p) implies right.to_set().contains(
            p,
        ) by {
            let i = choose|i: int| 0 <= i < left.len() && left[i] == p;
            assert(has_key(right, left[i].0));
            let k = key_index(right, left[i].0);
            assert(right[k].0 == left[i].0);
            assert(left[i].1.eq_spec(&right[k].1));
            assert(right[k] == p);
        }
        vstd::set_lib::lemma_subset_equality(left.to_set(), right.to_set());
    }
    if left.to_set() == right.to_set() {
        assert forall|i: int|
            #![trigger left[i]]
            0 <= i < left.len() implies has_key(right, left[i].0) && left[i].1.eq_spec(
            &right[key_index(right, left[i].0)].1,
        ) by {
            assert(left.to_set().contains(left[i]));
            assert(right.contains(left[i]));
            let j = choose|j: int| 0 <= j < right.len() && right[j] == left[i];
            assert(right[j].0 == left[i].0);
            let k = key_index(right, left[i].0);
            assert(right[k].0 == left[i].0);
            assert(k == j);
        }
    }
}

/// Collecting the entries of a container, each entity once, into a new container
/// gives back the same entries in the same order.
pub proof fn law_collect_gives_back_entries<T>(entries: Seq<(u64, T)>)
    requires
        unique_keys(entries),
    ensures
        collect_entries(entries) == entries,
    decreases entries.len(),
{
    if entries.len() > 0 {
        let front = entries.drop_last();
        let last = entries.last();
        assert forall|i: int, j: int|
            #![trigger front[i], front[j]]
            0 <= i < front.len() && 0 <= j < front.len() && i != j implies front[i].0
            != front[j].0 by {
            assert(front[i] == entries[i]);
            assert(front[j] == entries[j]);
        }
        law_collect_gives_back_entries(front);
        assert(!has_key(front, last.0)) by {
            if has_key(front, last.0) {
                let i = choose|i: int| #![trigger front[i]] 0 <= i < front.len() && front[i].0
                    == last.0;
                assert(front[i] == entries[i]);
                assert(entries[entries.len() - 1] == last);
            }
        }
        assert(front.push(last) =~= entries);
    }
}

/// When cloning the data gives back equal data, a cloned container holds exactly
/// the same entries as the container it was cloned from.
pub proof fn law_faithful_clone_is_equal<T: Clone>(base: Seq<(u64, T)>, copy: Seq<(u64, T)>)
    requires
        entries_cloned(base, copy),
        forall|x: T, y: T| #[trigger] cloned(x, y) ==> x == y,
    ensures
        copy == base,
{
    assert forall|i: int| 0 <= i < copy.len() implies copy[i] == base[i] by {
        assert(copy[i].0 == base[i].0);
        assert(cloned(base[i].1, copy[i].1));
    }
    assert(copy =~= base);
}

/// A container for the other entities that an entity is related to, each with the
/// data of that relation. Entities are named by their 64-bit identifiers.
pub trait EntityContainer<T>: Sized {
    /// The related entities with their data, in iteration order.
    spec fn entries(&self) -> Seq<(u64, T)>;

    /// Creates a container holding only `entity` with `data`.
    fn new(entity: u64, data: T) -> (c: Self)
        ensures
            c.entries() == seq![(entity, data)],
    ;

    /// Whether no entity is held.
    fn is_empty(&self) -> (r: bool)
        ensures
            r == (self.entries().len() == 0),
    ;

    /// Whether `entity` is held.
    fn contains(&self, entity: u64) -> (r: bool)
        ensures
            r == has_key(self.entries(), entity),
    ;

    /// The data held for `entity`.
    fn get(&self, entity: u64) -> (r: Option<&T>)
        ensures
            r is Some == has_key(self.entries(), entity),
            r matches Some(v) ==> value_of(self.entries(), entity) == Some(*v),
    ;

    /// Relates `entity` with `data`, replacing the data it had.
    fn push(&mut self, entity: u64, data: T)
        ensures
            final(self).entries() == with_entry(old(self).entries(), entity, data),
    ;

    /// Removes `entity`, giving back its data when it was held.
    fn remove(&mut self, entity: u64) -> (r: Option<T>)
        ensures
            final(self).entries() == without_key(old(self).entries(), entity),
            r == value_of(old(self).entries(), entity),
    ;

    /// The entities and their data, in iteration order, each entity once.
    fn into_iter(self) -> (r: Vec<(u64, T)>)
        ensures
            r@ == self.entries(),
            unique_keys(r@),
    ;

    /// The entities, each with a reference to its data, in iteration order.
    fn iter(&self) -> (r: Vec<(u64, &T)>)
        ensures
            r@.len() == self.entries().len(),
            forall|i: int|
                #![trigger r@[i]]
                0 <= i < r@.len() ==> r@[i].0 == self.entries()[i].0 && *r@[i].1
                    == self.entries()[i].1,
    ;

    /// The number of entities held.
    fn len(&self) -> (r: usize)
        ensures
            r == self.entries().len(),
    ;

    /// The entity at position `index` of the iteration order, with its data.
    fn entry(&self, index: usize) -> (r: (u64, &T))
        requires
            index < self.entries().len(),
        ensures
            r.0 == self.entries()[index as int].0,
            *r.1 == self.entries()[index as int].1,
    ;
}

/// An insertion-ordered map from entity identifiers to relation data.
#[derive(Debug)]
pub struct EntityMap<T> {
    items: Vec<(u64, T)>,
}

impl<T> EntityMap<T> {
    #[verifier::type_invariant]
    spec fn keys_are_unique(&self) -> bool {
        unique_keys(self.items@)
    }

    /// An empty container.
    pub fn empty() -> (m: Self)
        ensures
            m.entries() == Seq::<(u64, T)>::empty(),
    {
        EntityMap { items: Vec::new() }
    }

    /// Each entity is held at most once.
    pub(crate) fn keys_unique(&self)
        ensures
            unique_keys(self.entries()),
    {
        proof {
            use_type_invariant(self);
        }
    }

    /// Builds a container by relating each item in turn; a later item for the same
    /// entity replaces the data of an earlier one.
    pub fn from_entries(items: Vec<(u64, T)>) -> (m: Self)
        ensures
            m.entries() == collect_entries(items@),
    {
        let mut m = EntityMap::empty();
        let mut rest = items;
        let ghost all = items@;
        let ghost mut done: int = 0;
        assert(all.take(0) =~= Seq::<(u64, T)>::empty());
        while rest.len() > 0
            invariant
                0 <= done <= all.len(),
                rest@ == all.skip(done),
                m.entries() == collect_entries(all.take(done)),
            decreases rest@.len(),
        {
            let (key, value) = rest.remove(0);
            proof {
                assert(all.take(done + 1).drop_last() =~= all.take(done));
                assert(all.take(done + 1).last() == all[done]);
                assert(all.skip(done + 1) =~= all.skip(done).remove(0));
                done = done + 1;
            }
            m.push(key, value);
        }
        proof {
            assert(all.take(done) =~= all);
        }
        m
    }

    fn find(&self, key: u64) -> (r: Option<usize>)
        ensures
            match r {
                Some(i) => i < self.items@.len() && self.items@[i as int].0 == key && i == key_index(
                    self.items@,
                    key,
                ) && has_key(self.items@, key),
                None => !has_key(self.items@, key),
            },
    {
        proof {
            use_type_invariant(self);
        }
        let mut i: usize = 0;
        while i < self.items.len()
            invariant
                i <= self.items@.len(),
                unique_keys(self.items@),
                forall|j: int| 0 <= j < i ==> #[trigger] self.items@[j].0 != key,
            decreases self.items@.len() - i,
        {
            if self.items[i].0 == key {
                proof {
                    assert(has_key(self.items@, key));
                    let k = key_index(self.items@, key);
                    assert(self.items@[k].0 == key);
                }
                return Some(i);
            }
            i = i + 1;
        }
        None
    }
}

impl<T: Clone> Clone for EntityMap<T> {
    fn clone(&self) -> (r: Self)
        ensures
            entries_cloned(self.entries(), r.entries()),
    {
        proof {
            use_type_invariant(self);
        }
        let mut items: Vec<(u64, T)> = Vec::new();
        let mut i: usize = 0;
        while i < self.items.len()
            invariant
                i <= self.items@.len(),
                unique_keys(self.items@),
                items@.len() == i,
                forall|j: int|
                    #![trigger items@[j]]
                    0 <= j < i ==> items@[j].0 == self.items@[j].0 && cloned(
                        self.items@[j].1,
                        items@[j].1,
                    ),
            decreases self.items@.len() - i,
        {
            let item = &self.items[i];
            let data = item.1.clone();
            items.push((item.0, data));
            i = i + 1;
        }
        proof {
            assert forall|j: int, k: int|
                #![trigger items@[j], items@[k]]
                0 <= j < items@.len() && 0 <= k < items@.len() && j != k implies items@[j].0
                != items@[k].0 by {
                assert(self.items@[j].0 != self.items@[k].0);
            }
        }
        EntityMap { items }
    }
}

impl<T: PartialEq> PartialEq for EntityMap<T> {
    fn eq(&self, other: &Self) -> (r: bool) {
        if self.items.len() != other.items.len() {
            return false;
        }
        let mut i: usize = 0;
        while i < self.items.len()
            invariant
                i <= self.items@.len(),
                self.items@.len() == other.items@.len(),
                T::obeys_eq_spec() ==> forall|j: int|
                    #![trigger self.items@[j]]
                    0 <= j < i ==> has_key(other.items@, self.items@[j].0)
                        && self.items@[j].1.eq_spec(
                        &other.items@[key_index(other.items@, self.items@[j].0)].1,
                    ),
            decreases self.items@.len() - i,
        {
            match other.find(self.items[i].0) {
                None => {
                    return false;
                },
                Some(k) => {
                    if !self.items[i].1.eq(&other.items[k].1) {
                        return false;
                    }
                },
            }
            i = i + 1;
        }
        true
    }
}

impl<T: PartialEq> vstd::std_specs::cmp::PartialEqSpecImpl for EntityMap<T> {
    open spec fn obeys_eq_spec() -> bool {
        T::obeys_eq_spec()
    }

    open spec fn eq_spec(&self, other: &Self) -> bool {
        same_entries(self.entries(), other.entries())
    }
}

impl<T: Eq> Eq for EntityMap<T> {

}

impl<T> EntityContainer<T> for EntityMap<T> {
    closed spec fn entries(&self) -> Seq<(u64, T)> {
        self.items@
    }

    fn new(entity: u64, data: T) -> (c: Self) {
        let mut items = Vec::new();
        items.push((entity, data));
        EntityMap { items }
    }

    fn is_empty(&self) -> (r: bool) {
        self.items.len() == 0
    }

    fn contains(&self, entity: u64) -> (r: bool) {
        self.find(entity).is_some()
    }

    fn get(&self, entity: u64) -> (r: Option<&T>) {
        match self.find(entity) {
            Some(i) => Some(&self.items[i].1),
            None => None,
        }
    }

    fn push(&mut self, entity: u64, data: T) {
        proof {
            use_type_invariant(&*self);
        }
        let found = self.find(entity);
        let mut items = Vec::new();
        std::mem::swap(&mut items, &mut self.items);
        match found {
            Some(i) => {
                items.set(i, (entity, data));
            },
            None => {
                items.push((entity, data));
            },
        }
        self.items = items;
    }

    fn remove(&mut self, entity: u64) -> (r: Option<T>) {
        proof {
            use_type_invariant(&*self);
        }
        match self.find(entity) {
            Some(i) => {
                let mut items = Vec::new();
                std::mem::swap(&mut items, &mut self.items);
                let (_, data) = items.remove(i);
                self.items = items;
                Some(data)
            },
            None => None,
        }
    }

    fn into_iter(self) -> (r: Vec<(u64, T)>) {
        proof {
            use_type_invariant(&self);
        }
        self.items
    }

    fn iter(&self) -> (r: Vec<(u64, &T)>) {
        let mut r: Vec<(u64, &T)> = Vec::new();
        let mut i: usize = 0;
        while i < self.items.len()
            invariant
                i <= self.items@.len(),
                r@.len() == i,
                forall|j: int|
                    #![trigger r@[j]]
                    0 <= j < i ==> r@[j].0 == self.items@[j].0 && *r@[j].1 == self.items@[j].1,
            decreases self.items@.len() - i,
        {
            let item = &self.items[i];
            r.push((item.0, &item.1));
            i = i + 1;
        }
        r
    }

    fn len(&self) -> (r: usize) {
        self.items.len()
    }

    fn entry(&self, index: usize) -> (r: (u64, &T)) {
        let item = &self.items[index];
        (item.0, &item.1)
    }
}

} // verus!
