use evergreen_relations::container::{EntityContainer, EntityMap};
use evergreen_relations::related::Related;

#[test]
fn new_holds_one_entity() {
    let m: EntityMap<u32> = EntityContainer::new(4, 40);
    assert!(!m.is_empty());
    assert!(m.contains(4));
    assert!(!m.contains(5));
    assert_eq!(m.get(4), Some(&40));
    assert_eq!(m.get(5), None);
    assert_eq!(m.len(), 1);
    assert_eq!(m.entry(0), (4, &40));
}

#[test]
fn push_appends_or_replaces_in_place() {
    let mut m: EntityMap<u32> = EntityMap::empty();
    assert!(m.is_empty());
    m.push(1, 10);
    m.push(2, 20);
    m.push(3, 30);
    m.push(2, 21);
    assert_eq!(m.len(), 3);
    assert_eq!(m.into_iter(), vec![(1, 10), (2, 21), (3, 30)]);
}

#[test]
fn remove_gives_back_data_and_keeps_order() {
    let mut m = EntityMap::from_entries(vec![(1, 'a'), (2, 'b'), (3, 'c')]);
    assert_eq!(m.remove(2), Some('b'));
    assert_eq!(m.remove(2), None);
    assert_eq!(m.remove(9), None);
    assert_eq!(m.clone().into_iter(), vec![(1, 'a'), (3, 'c')]);
    assert_eq!(m.remove(1), Some('a'));
    assert_eq!(m.remove(3), Some('c'));
    assert!(m.is_empty());
}

#[test]
fn push_then_remove_restores() {
    let before = EntityMap::from_entries(vec![(1, 5u8), (2, 6)]);
    let mut m = before.clone();
    m.push(3, 7);
    assert_eq!(m.get(3), Some(&7));
    assert_eq!(m.remove(3), Some(7));
    assert_eq!(m.into_iter(), before.into_iter());
}

#[test]
fn from_entries_keeps_last_data_at_first_place() {
    let m = EntityMap::from_entries(vec![(5, 1u8), (6, 2), (5, 3)]);
    assert_eq!(m.into_iter(), vec![(5, 3), (6, 2)]);
    let empty: EntityMap<u8> = EntityMap::from_entries(vec![]);
    assert!(empty.is_empty());
}

#[test]
fn equality_ignores_order() {
    let left = EntityMap::from_entries(vec![(1, 'x'), (2, 'y')]);
    let right = EntityMap::from_entries(vec![(2, 'y'), (1, 'x')]);
    let other = EntityMap::from_entries(vec![(2, 'y'), (1, 'z')]);
    let shorter = EntityMap::from_entries(vec![(1, 'x')]);
    let elsewhere = EntityMap::from_entries(vec![(1, 'x'), (3, 'y')]);
    assert!(left == right);
    assert!(left != other);
    assert!(left != shorter);
    assert!(left != elsewhere);
}

#[test]
fn related_queries() {
    let mut r = Related::from_iter(vec![(7, "seven"), (8, "eight")]);
    assert!(r.contains(7));
    assert!(!r.contains(9));
    assert_eq!(r.get(8), Some(&"eight"));
    assert_eq!(r.iter(), vec![(7, &"seven"), (8, &"eight")]);
    assert_eq!(r.len(), 2);
    assert_eq!(r.entry(1), (8, &"eight"));
    r.push(9, "nine");
    assert_eq!(r.remove(7), Some("seven"));
    assert_eq!(r.iter(), vec![(8, &"eight"), (9, &"nine")]);
    assert_eq!(r.container().len(), 2);
    assert!(!r.is_empty());
    let single = Related::from((3, "three"));
    assert_eq!(single.iter(), vec![(3, &"three")]);
    let wrapped = Related::new(EntityMap::from_entries(vec![(3, "three")]));
    assert_eq!(wrapped, single);
    assert_eq!(wrapped.clone(), single);
    assert!(Related::<u8>::from_iter(vec![]).is_empty());
}
