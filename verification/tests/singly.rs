use linked_lists::linkedlist::{Iter, LinkedList, LinkedListError};

#[test]
fn test_new() {
    let ll1 = LinkedList::<i32>::new();
    assert_eq!(ll1.len(), 0);
    assert!(ll1.get_value(0).is_err());
}

#[test]
fn test_len() {
    let mut ll1 = LinkedList::<i32>::from(vec![]);
    assert_eq!(ll1.len(), 0);
    ll1.push_front(2);
    assert_eq!(ll1.len(), 1);
    ll1.push_back(3);
    assert_eq!(ll1.len(), 2);
    ll1.push(1, 5).unwrap();
    assert_eq!(ll1.len(), 3);
    ll1.pop(1).unwrap();
    assert_eq!(ll1.len(), 2);
    ll1.pop_front().unwrap();
    assert_eq!(ll1.len(), 1);
    ll1.pop_back().unwrap();
    assert_eq!(ll1.len(), 0);

    let mut ll2 = LinkedList::from(vec![2, 3, 5, 7, 11]);
    assert_eq!(ll2.len(), 5);
    ll2.reverse();
    assert_eq!(ll2.len(), 5);
    ll2.clear();
    assert_eq!(ll2.len(), 0);
}

#[test]
fn test_get_value() {
    let ll1 = LinkedList::<i32>::from(vec![]);
    assert!(ll1.get_value(0).is_err());

    let ll2 = LinkedList::from(vec![2, 3, 5]);
    assert_eq!(*ll2.get_value(0).unwrap(), 2);
    assert_eq!(*ll2.get_value(1).unwrap(), 3);
    assert_eq!(*ll2.get_value(2).unwrap(), 5);
}

#[test]
fn test_get_value_mut() {
    let mut ll1 = LinkedList::<i32>::from(vec![]);
    assert!(ll1.get_value_mut(0).is_err());

    let mut ll2 = LinkedList::from(vec![2, 3, 5]);
    assert_eq!(*ll2.get_value_mut(0).unwrap(), 2);
    assert_eq!(*ll2.get_value_mut(1).unwrap(), 3);
    assert_eq!(*ll2.get_value_mut(2).unwrap(), 5);
    *ll2.get_value_mut(0).unwrap() = 7;
    *ll2.get_value_mut(1).unwrap() = 11;
    *ll2.get_value_mut(2).unwrap() = 13;
    let v: Vec<_> = ll2.into_vec();
    assert_eq!(v, vec![7, 11, 13]);
}

#[test]
fn test_set_value() {
    let mut ll1 = LinkedList::<i32>::from(vec![]);
    assert!(ll1.set_value(0, 1).is_err());

    let mut ll2 = LinkedList::from(vec![2, 3, 5]);
    ll2.set_value(0, 7).unwrap();
    ll2.set_value(1, 11).unwrap();
    ll2.set_value(2, 13).unwrap();
    let v: Vec<_> = ll2.into_vec();
    assert_eq!(v, vec![7, 11, 13]);
}

#[test]
fn test_push() {
    let mut ll1 = LinkedList::new();
    assert_eq!(ll1, vec![].into());
    assert!(ll1.push(1, 0).is_err());
    ll1.push(0, 3).unwrap();
    assert_eq!(ll1, vec![3].into());
    ll1.push(0, 2).unwrap();
    assert_eq!(ll1, vec![2, 3].into());
    ll1.push(2, 7).unwrap();
    assert_eq!(ll1, vec![2, 3, 7].into());
    ll1.push(2, 5).unwrap();
    assert_eq!(ll1, vec![2, 3, 5, 7].into());
}

#[test]
fn test_push_front() {
    let mut ll1 = LinkedList::new();
    assert_eq!(ll1, vec![].into());
    ll1.push_front(5);
    assert_eq!(ll1, vec![5].into());
    ll1.push_front(3);
    assert_eq!(ll1, vec![3, 5].into());
    ll1.push_front(2);
    assert_eq!(ll1, vec![2, 3, 5].into());
}

#[test]
fn test_push_back() {
    let mut ll1 = LinkedList::new();
    assert_eq!(ll1, vec![].into());
    ll1.push_back(2);
    assert_eq!(ll1, vec![2].into());
    ll1.push_back(3);
    assert_eq!(ll1, vec![2, 3].into());
    ll1.push_back(5);
    assert_eq!(ll1, vec![2, 3, 5].into());
}

#[test]
fn test_pop() {
    let mut ll1 = LinkedList::from(vec![2, 3, 5, 7]);
    assert_eq!(ll1, vec![2, 3, 5, 7].into());
    assert!(ll1.pop(4).is_err());
    ll1.pop(3).unwrap();
    assert_eq!(ll1, vec![2, 3, 5].into());
    ll1.pop(1).unwrap();
    assert_eq!(ll1, vec![2, 5].into());
    ll1.pop(0).unwrap();
    assert_eq!(ll1, vec![5].into());
    ll1.pop(0).unwrap();
    assert_eq!(ll1, vec![].into());
    assert!(ll1.pop(0).is_err());
}

#[test]
fn test_pop_front() {
    let mut ll1 = LinkedList::from(vec![2, 3, 5]);
    assert_eq!(ll1, vec![2, 3, 5].into());
    ll1.pop_front().unwrap();
    assert_eq!(ll1, vec![3, 5].into());
    ll1.pop_front().unwrap();
    assert_eq!(ll1, vec![5].into());
    ll1.pop_front().unwrap();
    assert_eq!(ll1, vec![].into());
    assert!(ll1.pop_front().is_err());
}

#[test]
fn test_pop_back() {
    let mut ll1 = LinkedList::from(vec![2, 3, 5]);
    assert_eq!(ll1, vec![2, 3, 5].into());
    ll1.pop_back().unwrap();
    assert_eq!(ll1, vec![2, 3].into());
    ll1.pop_back().unwrap();
    assert_eq!(ll1, vec![2].into());
    ll1.pop_back().unwrap();
    assert_eq!(ll1, vec![].into());
    assert!(ll1.pop_back().is_err());
}

#[test]
fn test_clear() {
    let mut ll1 = LinkedList::<i32>::new();
    ll1.clear();
    assert_eq!(ll1.len(), 0);
    assert_eq!(ll1, vec![].into());

    let mut ll2 = LinkedList::from(vec![2, 3, 5, 7]);
    assert_eq!(ll2.len(), 4);
    assert_eq!(ll2, vec![2, 3, 5, 7].into());
    ll2.clear();
    assert_eq!(ll2.len(), 0);
    assert_eq!(ll2, vec![].into());
}

#[test]
fn test_reverse() {
    let mut ll1 = LinkedList::<i32>::new();
    assert_eq!(ll1.len(), 0);
    assert_eq!(ll1, vec![].into());
    ll1.reverse();
    assert_eq!(ll1.len(), 0);
    assert_eq!(ll1, vec![].into());

    let mut ll2 = LinkedList::from(vec![1]);
    assert_eq!(ll2.len(), 1);
    assert_eq!(ll2, vec![1].into());
    ll2.reverse();
    assert_eq!(ll2.len(), 1);
    assert_eq!(ll2, vec![1].into());

    let mut ll3 = LinkedList::from(vec![2, 3]);
    assert_eq!(ll3.len(), 2);
    assert_eq!(ll3, vec![2, 3].into());
    ll3.reverse();
    assert_eq!(ll3.len(), 2);
    assert_eq!(ll3, vec![3, 2].into());

    let mut ll4 = LinkedList::from(vec![4, 5, 6]);
    assert_eq!(ll4.len(), 3);
    assert_eq!(ll4, vec![4, 5, 6].into());
    ll4.reverse();
    assert_eq!(ll4.len(), 3);
    assert_eq!(ll4, vec![6, 5, 4].into());

    let mut ll2 = LinkedList::from(vec![2, 3, 5, 7, 11, 13, 17, 19, 23]);
    assert_eq!(ll2, vec![2, 3, 5, 7, 11, 13, 17, 19, 23].into());
    ll2.reverse();
    assert_eq!(ll2, vec![23, 19, 17, 13, 11, 7, 5, 3, 2].into());
}

#[test]
fn test_iter() {
    let ll1 = LinkedList::<i32>::new();
    let mut ll1_iter = ll1.iter();
    assert_eq!(ll1_iter.next(), None);

    let ll2 = LinkedList::from(vec![2, 3, 5, 7]);
    let mut ll2_iter = ll2.iter();
    assert_eq!(ll2_iter.next(), Some(&2));
    assert_eq!(ll2_iter.next(), Some(&3));
    assert_eq!(ll2_iter.next(), Some(&5));
    assert_eq!(ll2_iter.next(), Some(&7));
    assert_eq!(ll2_iter.next(), None);
}

#[test]
fn test_iter_new() {
    let ll = LinkedList::from(vec![2, 3]);
    let mut it = Iter::new(&ll);
    assert_eq!(it.next(), Some(&2));
    assert_eq!(it.next(), Some(&3));
    assert_eq!(it.next(), None);
    let mut again = ll.iter();
    assert_eq!(again.next(), Some(&2));
}

#[test]
fn test_default() {
    let ll1 = LinkedList::<i32>::new();
    let ll2 = LinkedList::default();
    let ll3 = Default::default();
    assert_eq!(ll1, ll2);
    assert_eq!(ll1, ll3);
    assert_eq!(ll2.len(), 0);
    assert_eq!(ll3.len(), 0);
}

#[test]
fn test_from_vec() {
    let ll1: LinkedList<i32> = LinkedList::from(vec![]);
    let ll2 = LinkedList::new();
    assert_eq!(ll1, ll2);

    let ll3 = LinkedList::from(vec![2, 3, 5, 7]);
    let mut ll4 = LinkedList::new();
    ll4.push_back(2);
    ll4.push_back(3);
    ll4.push_back(5);
    ll4.push_back(7);
    assert_eq!(ll3, ll4);

    let ll5: LinkedList<i32> = vec![].into();
    let ll6 = LinkedList::new();
    assert_eq!(ll5, ll6);

    let ll7: LinkedList<i32> = vec![2, 3, 5, 7].into();
    let mut ll8 = LinkedList::new();
    ll8.push_back(2);
    ll8.push_back(3);
    ll8.push_back(5);
    ll8.push_back(7);
    assert_eq!(ll7, ll8);
}

#[test]
fn test_try_into_array() {
    let arr: [i32; 0] = LinkedList::<i32>::from(vec![]).try_into_array().unwrap();
    assert_eq!(arr, []);

    let arr: [i32; 4] = LinkedList::from(vec![2, 3, 5, 7]).try_into_array().unwrap();
    assert_eq!(arr, [2, 3, 5, 7]);

    let arr_result: Result<[i32; 1], LinkedListError> =
        LinkedList::<i32>::from(vec![]).try_into_array();
    assert!(arr_result.is_err());
}

#[test]
fn test_into_vec() {
    let v: Vec<_> = LinkedList::<i32>::from(vec![]).into_vec();
    assert_eq!(v, vec![]);

    let v: Vec<_> = LinkedList::from(vec![2, 3, 5, 7]).into_vec();
    assert_eq!(v, vec![2, 3, 5, 7]);
}

#[test]
fn test_partial_eq() {
    assert_eq!(LinkedList::<i32>::from(vec![]), LinkedList::from(vec![]));
    assert_eq!(
        LinkedList::from(vec![2, 3, 5, 7]),
        LinkedList::from(vec![2, 3, 5, 7])
    );
    assert_ne!(LinkedList::from(vec![]), LinkedList::from(vec![2, 3, 5, 7]));
    assert_ne!(
        LinkedList::from(vec![1, 2, 3, 4]),
        LinkedList::from(vec![2, 3, 5, 7])
    );
    assert_ne!(
        LinkedList::from(vec![1, 4, 9, 16, 25]),
        LinkedList::from(vec![2, 3, 5, 7])
    );
    assert_ne!(
        LinkedList::from(vec![-2, -3, -5, -7]),
        LinkedList::from(vec![2, 3, 5, 7])
    );
}

#[test]
fn test_pop_sequence_scenario() {
    let mut ll = LinkedList::from(vec![2, 3, 5, 7]);
    assert_eq!(ll.pop(3).unwrap(), 7);
    assert_eq!(ll, vec![2, 3, 5].into());
    assert_eq!(ll.pop(1).unwrap(), 3);
    assert_eq!(ll, vec![2, 5].into());
    assert_eq!(ll.pop(0).unwrap(), 2);
    assert_eq!(ll.pop(0).unwrap(), 5);
    assert_eq!(ll, vec![].into());
    assert!(matches!(
        ll.pop(0),
        Err(LinkedListError::IndexOutOfBounds { index: 0, size: 0 })
    ));
}

#[test]
fn test_boundary_errors() {
    let mut empty = LinkedList::<i32>::new();
    assert!(matches!(
        empty.pop(0),
        Err(LinkedListError::IndexOutOfBounds { index: 0, size: 0 })
    ));
    assert!(matches!(
        empty.get_value(0),
        Err(LinkedListError::IndexOutOfBounds { index: 0, size: 0 })
    ));
    assert!(matches!(
        empty.set_value(0, 9),
        Err(LinkedListError::IndexOutOfBounds { index: 0, size: 0 })
    ));

    let mut ll = LinkedList::from(vec![2, 3]);
    assert!(ll.push(2, 5).is_ok());
    assert_eq!(ll, vec![2, 3, 5].into());
    assert!(matches!(
        ll.push(4, 7),
        Err(LinkedListError::IndexOutOfBounds { index: 4, size: 3 })
    ));
    assert_eq!(ll, vec![2, 3, 5].into());
}

#[test]
fn test_invalid_array_size_fields() {
    let r: Result<[i32; 3], LinkedListError> = LinkedList::from(vec![2, 3]).try_into_array();
    assert!(matches!(
        r,
        Err(LinkedListError::InvalidArraySize {
            size: 2,
            array_size: 3
        })
    ));
}

#[test]
fn test_set_then_get() {
    let mut ll = LinkedList::from(vec![2, 3, 5]);
    for i in 0..3 {
        ll.set_value(i, 100 + i as i32).unwrap();
        assert_eq!(*ll.get_value(i).unwrap(), 100 + i as i32);
    }
    assert_eq!(ll, vec![100, 101, 102].into());
}

#[test]
fn test_push_then_pop() {
    let orig = vec![2, 3, 5, 7];
    for i in 0..=orig.len() {
        let mut ll = LinkedList::from(orig.clone());
        ll.push(i, 99).unwrap();
        assert_eq!(ll.len(), 5);
        assert_eq!(ll.pop(i).unwrap(), 99);
        assert_eq!(ll, orig.clone().into());
    }
}

#[test]
fn test_size_counts_pushes_minus_pops() {
    let mut ll = LinkedList::<i32>::new();
    let mut ok_pushes = 0usize;
    let mut ok_pops = 0usize;
    let pushes = [(0usize, 2), (1, 3), (9, 4), (2, 5)];
    for (i, v) in pushes {
        if ll.push(i, v).is_ok() {
            ok_pushes += 1;
        }
    }
    let pops = [1usize, 7, 0];
    for i in pops {
        if ll.pop(i).is_ok() {
            ok_pops += 1;
        }
    }
    assert_eq!(ok_pushes, 3);
    assert_eq!(ok_pops, 2);
    assert_eq!(ll.len(), ok_pushes - ok_pops);
}

#[test]
fn test_round_trip() {
    for values in [vec![], vec![1], vec![2, 3, 5, 7]] {
        let ll = LinkedList::from(values.clone());
        let flat = ll.into_vec();
        assert_eq!(flat, values);
        let rebuilt = LinkedList::from(flat);
        assert_eq!(rebuilt, values.into());
    }
}

#[test]
fn test_reverse_twice() {
    for values in [vec![], vec![1], vec![2, 3], vec![2, 3, 5, 7, 11]] {
        let mut ll = LinkedList::from(values.clone());
        ll.reverse();
        ll.reverse();
        assert_eq!(ll, values.into());
    }
}

#[test]
fn test_from_slice() {
    let ll1: LinkedList<i32> = LinkedList::from(vec![].as_slice());
    let ll2 = LinkedList::new();
    assert_eq!(ll1, ll2);

    let ll3 = LinkedList::from(vec![2, 3, 5, 7].as_slice());
    let mut ll4 = LinkedList::new();
    ll4.push_back(2);
    ll4.push_back(3);
    ll4.push_back(5);
    ll4.push_back(7);
    assert_eq!(ll3, ll4);

    let ll5: LinkedList<i32> = vec![].as_slice().into();
    let ll6 = LinkedList::new();
    assert_eq!(ll5, ll6);

    let ll7: LinkedList<i32> = vec![2, 3, 5, 7].as_slice().into();
    let mut ll8 = LinkedList::new();
    ll8.push_back(2);
    ll8.push_back(3);
    ll8.push_back(5);
    ll8.push_back(7);
    assert_eq!(ll7, ll8);
}

#[test]
fn test_from_mut_slice() {
    let ll1: LinkedList<i32> = LinkedList::from(vec![].as_mut_slice());
    let ll2 = LinkedList::new();
    assert_eq!(ll1, ll2);

    let ll3 = LinkedList::from(vec![2, 3, 5, 7].as_mut_slice());
    let mut ll4 = LinkedList::new();
    ll4.push_back(2);
    ll4.push_back(3);
    ll4.push_back(5);
    ll4.push_back(7);
    assert_eq!(ll3, ll4);

    let ll5: LinkedList<i32> = vec![].as_mut_slice().into();
    let ll6 = LinkedList::new();
    assert_eq!(ll5, ll6);

    let ll7: LinkedList<i32> = vec![2, 3, 5, 7].as_mut_slice().into();
    let mut ll8 = LinkedList::new();
    ll8.push_back(2);
    ll8.push_back(3);
    ll8.push_back(5);
    ll8.push_back(7);
    assert_eq!(ll7, ll8);
}

#[test]
fn test_from_sized_slice() {
    let ll1: LinkedList<i32> = LinkedList::from(&[]);
    let ll2 = LinkedList::new();
    assert_eq!(ll1, ll2);

    let ll3 = LinkedList::from(&[2, 3, 5, 7]);
    let mut ll4 = LinkedList::new();
    ll4.push_back(2);
    ll4.push_back(3);
    ll4.push_back(5);
    ll4.push_back(7);
    assert_eq!(ll3, ll4);

    let ll5: LinkedList<i32> = (&[]).into();
    let ll6 = LinkedList::new();
    assert_eq!(ll5, ll6);

    let ll7: LinkedList<i32> = (&[2, 3, 5, 7]).into();
    let mut ll8 = LinkedList::new();
    ll8.push_back(2);
    ll8.push_back(3);
    ll8.push_back(5);
    ll8.push_back(7);
    assert_eq!(ll7, ll8);
}

#[test]
fn test_from_mut_sized_slice() {
    let ll1: LinkedList<i32> = LinkedList::from(&mut []);
    let ll2 = LinkedList::new();
    assert_eq!(ll1, ll2);

    let ll3 = LinkedList::from(&mut [2, 3, 5, 7]);
    let mut ll4 = LinkedList::new();
    ll4.push_back(2);
    ll4.push_back(3);
    ll4.push_back(5);
    ll4.push_back(7);
    assert_eq!(ll3, ll4);

    let ll5: LinkedList<i32> = (&mut []).into();
    let ll6 = LinkedList::new();
    assert_eq!(ll5, ll6);

    let ll7: LinkedList<i32> = (&mut [2, 3, 5, 7]).into();
    let mut ll8 = LinkedList::new();
    ll8.push_back(2);
    ll8.push_back(3);
    ll8.push_back(5);
    ll8.push_back(7);
    assert_eq!(ll7, ll8);
}

#[test]
fn test_from_array() {
    let ll1: LinkedList<i32> = LinkedList::from([]);
    let ll2 = LinkedList::new();
    assert_eq!(ll1, ll2);

    let ll3 = LinkedList::from([2, 3, 5, 7]);
    let mut ll4 = LinkedList::new();
    ll4.push_back(2);
    ll4.push_back(3);
    ll4.push_back(5);
    ll4.push_back(7);
    assert_eq!(ll3, ll4);

    let ll5: LinkedList<i32> = [].into();
    let ll6 = LinkedList::new();
    assert_eq!(ll5, ll6);

    let ll7: LinkedList<i32> = [2, 3, 5, 7].into();
    let mut ll8 = LinkedList::new();
    ll8.push_back(2);
    ll8.push_back(3);
    ll8.push_back(5);
    ll8.push_back(7);
    assert_eq!(ll7, ll8);
}

#[test]
fn test_into_iter() {
    let ll1 = LinkedList::<i32>::new();
    let v: Vec<_> = ll1.into_iter().collect();
    assert_eq!(v, vec![]);

    let ll2 = LinkedList::from(vec![2, 3, 5, 7]);
    let v: Vec<_> = ll2.into_iter().collect();
    assert_eq!(v, vec![2, 3, 5, 7]);
}
