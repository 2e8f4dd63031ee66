use hprtree::RemoveList;
use std::cell::RefCell;

fn contents(l: &RemoveList<i32>) -> Vec<i32> {
    let out = RefCell::new(Vec::new());
    l.for_each(|v| out.borrow_mut().push(*v));
    out.into_inner()
}

#[test]
fn push_keeps_order() {
    let mut l = RemoveList::new(4);
    assert!(l.is_empty());
    assert_eq!(l.size(), 0);
    for v in [3, 1, 4, 1, 5] {
        l.push(v);
    }
    assert!(!l.is_empty());
    assert_eq!(l.size(), 5);
    assert_eq!(contents(&l), vec![3, 1, 4, 1, 5]);
}

#[test]
fn remove_if_unlinks_matches_and_keeps_order() {
    let mut l = RemoveList::new(8);
    for v in 1..=10 {
        l.push(v);
    }
    l.remove_if(|v: &i32| v % 3 == 0);
    assert_eq!(contents(&l), vec![1, 2, 4, 5, 7, 8, 10]);
    assert_eq!(l.size(), 7);
    l.remove_if(|v: &i32| *v < 3);
    assert_eq!(contents(&l), vec![4, 5, 7, 8, 10]);
    l.remove_if(|v: &i32| *v == 10);
    assert_eq!(contents(&l), vec![4, 5, 7, 8]);
    l.push(11);
    assert_eq!(contents(&l), vec![4, 5, 7, 8, 11]);
}

#[test]
fn remove_everything_then_push_again() {
    let mut l = RemoveList::new(0);
    l.push(1);
    l.push(2);
    l.remove_if(|_: &i32| true);
    assert!(l.is_empty());
    assert_eq!(contents(&l), Vec::<i32>::new());
    l.push(9);
    l.push(8);
    assert_eq!(contents(&l), vec![9, 8]);
    l.remove_if(|_: &i32| false);
    assert_eq!(contents(&l), vec![9, 8]);
}
