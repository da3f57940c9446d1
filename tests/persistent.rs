use data_structures::persistent_list::List;

#[test]
fn persistent_list_basics() {
    let list = List::new();
    assert_eq!(list.get_head(), None);

    let list = list.unshift(1).unshift(2).unshift(3);
    assert_eq!(list.get_head(), Some(&3));

    let list = list.shift();
    assert_eq!(list.get_head(), Some(&2));

    let list = list.shift();
    assert_eq!(list.get_head(), Some(&1));

    let list = list.shift();
    assert_eq!(list.get_head(), None);

    let list = list.shift();
    assert_eq!(list.get_head(), None);
}

#[test]
fn iter() {
    let list = List::new().unshift(1).unshift(2).unshift(3);

    let mut iter = list.iter();
    assert_eq!(iter.next(), Some(&3));
    assert_eq!(iter.next(), Some(&2));
    assert_eq!(iter.next(), Some(&1));
}

#[test]
fn shared_tails_stay_intact() {
    let base = List::new().unshift(1);
    let a = base.unshift(2);
    let b = base.unshift(3);
    assert_eq!(a.get_head(), Some(&2));
    assert_eq!(b.get_head(), Some(&3));
    assert_eq!(a.shift().get_head(), Some(&1));
    assert_eq!(b.shift().get_head(), Some(&1));
    let mut it = base.iter();
    assert_eq!(it.next(), Some(&1));
    assert_eq!(it.next(), None);
}
