use vector_track::list::List;

#[test]
fn list_1() {
    let mut l = List::new();
    l = l.push(1).push(2);
    assert_eq!(l.iter().collect(), vec![2, 1]);
    let l2 = l.push(3);
    assert_eq!(l.iter().collect(), vec![2, 1]);
    assert_eq!(l2.iter().collect(), vec![3, 2, 1]);
}

#[test]
fn empty_list_yields_nothing() {
    let l: List<u8> = List::new();
    let mut iter = l.iter();
    assert_eq!(iter.next(), None);
    assert_eq!(iter.next(), None);
    assert_eq!(l.iter().collect(), Vec::<u8>::new());
}

#[test]
fn iteration_goes_newest_first() {
    let l = List::new().push('a').push('b').push('c');
    let mut iter = l.iter();
    assert_eq!(iter.next(), Some('c'));
    assert_eq!(iter.next(), Some('b'));
    assert_eq!(iter.next(), Some('a'));
    assert_eq!(iter.next(), None);
}

#[test]
fn versions_share_history_without_changing_it() {
    let base = List::new().push(10).push(20);
    let left = base.push(31);
    let right = base.push(32);
    let copy = base.clone();
    assert_eq!(left.iter().collect(), vec![31, 20, 10]);
    assert_eq!(right.iter().collect(), vec![32, 20, 10]);
    assert_eq!(base.iter().collect(), vec![20, 10]);
    assert_eq!(copy.iter().collect(), vec![20, 10]);
}
