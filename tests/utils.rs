use depo_advisor::utils::{group_by, index_by, order_by};

#[test]
fn test_order_by() {
    let v_own = vec![(1, 1), (2, 1), (1, 2), (2, 2)];
    let v: Vec<&(i32, i32)> = v_own.iter().collect();

    let indexed = order_by(&v, |(k1, _), (k2, _)| k1.cmp(k2));

    assert_eq!(*indexed[0], (1, 1));
    assert_eq!(*indexed[1], (1, 2));
    assert_eq!(*indexed[2], (2, 1));
    assert_eq!(*indexed[3], (2, 2));
}

#[test]
fn test_index_by() {
    let v_own = vec![(1, 1), (2, 2), (3, 3), (4, 4)];
    let v: Vec<&(i32, i32)> = v_own.iter().collect();

    let indexed = index_by(&v, |(k, _)| *k);

    assert_eq!(**(indexed.get(&1).unwrap()), (1, 1));
    assert_eq!(**(indexed.get(&2).unwrap()), (2, 2));
    assert_eq!(**(indexed.get(&3).unwrap()), (3, 3));
    assert_eq!(**(indexed.get(&4).unwrap()), (4, 4));
}

#[test]
fn test_group_by() {
    let v_own = vec![(1, 1), (1, 2), (2, 1), (2, 2)];
    let v: Vec<&(i32, i32)> = v_own.iter().collect();

    let grouped = group_by(&v, |(k, _)| *k);

    assert_eq!(*(grouped.get(&1).unwrap()[0]), (1, 1));
    assert_eq!(*(grouped.get(&1).unwrap()[1]), (1, 2));
    assert_eq!(*(grouped.get(&2).unwrap()[0]), (2, 1));
    assert_eq!(*(grouped.get(&2).unwrap()[1]), (2, 2));
}

#[test]
fn order_by_descending_keeps_ties_in_order() {
    let v_own = vec![(5, 'a'), (8, 'b'), (5, 'c'), (8, 'd'), (1, 'e')];
    let v: Vec<&(i32, char)> = v_own.iter().collect();
    let sorted = order_by(&v, |(a, _), (b, _)| b.cmp(a));
    let tags: Vec<char> = sorted.iter().map(|p| p.1).collect();
    assert_eq!(tags, vec!['b', 'd', 'a', 'c', 'e']);
    assert_eq!(v.len(), 5);
    assert_eq!(v[0].1, 'a');
}

#[test]
fn order_by_empty() {
    let v: Vec<&i32> = Vec::new();
    assert!(order_by(&v, |a, b| a.cmp(b)).is_empty());
}

#[test]
fn index_by_later_item_overwrites() {
    let v_own = vec![(1, 'a'), (2, 'b'), (1, 'c')];
    let v: Vec<&(i32, char)> = v_own.iter().collect();
    let indexed = index_by(&v, |(k, _)| *k);
    assert_eq!(indexed.len(), 2);
    assert_eq!(indexed.get(&1).unwrap().1, 'c');
    assert_eq!(indexed.get(&2).unwrap().1, 'b');
}

#[test]
fn group_by_keeps_order_within_groups() {
    let v_own = vec![(2, 'a'), (1, 'b'), (2, 'c'), (1, 'd'), (2, 'e')];
    let v: Vec<&(i32, char)> = v_own.iter().collect();
    let grouped = group_by(&v, |(k, _)| *k);
    assert_eq!(grouped.len(), 2);
    let twos: Vec<char> = grouped.get(&2).unwrap().iter().map(|p| p.1).collect();
    assert_eq!(twos, vec!['a', 'c', 'e']);
    let ones: Vec<char> = grouped.get(&1).unwrap().iter().map(|p| p.1).collect();
    assert_eq!(ones, vec!['b', 'd']);
    assert!(grouped.get(&3).is_none());
}
