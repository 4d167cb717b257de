use std::borrow::Borrow;
use std::fmt::Debug;

use skiplist::skip::SkipList;

#[derive(Debug)]
struct A(i32);

fn boo<Q: Borrow<A> + Debug>(q: &Q) {
    println!("-- {:?}", q);
}

#[derive(Debug)]
struct Val(i32);

#[derive(Debug)]
struct Item {
    val: Val,
}

impl Item {
    fn f3(&mut self) {
        self.val = Val(self.val.0 + 1);
    }

    fn f4(&mut self) {
        println!("x");
    }
}

#[test]
fn t_f() {
    let mut item = Item { val: Val(1) };
    item.f4();
    item.f3();
}

#[test]
fn it_works() {
    assert_eq!(2 + 2, 4);
    let a = A(10);
    boo(&a)
}

fn keys_of(sk: &SkipList<u64, u64>) -> Vec<u64> {
    let mut out = Vec::new();
    let mut it = sk.iter();
    while let Some((k, _)) = it.next() {
        out.push(*k);
    }
    out
}

#[test]
fn ascending_no_duplicates() {
    let mut sk = SkipList::new();
    for k in [9u64, 3, 7, 3, 1, 8, 7, 2, 9, 0, 5] {
        sk.insert(k, k * 10);
    }
    let keys = keys_of(&sk);
    assert_eq!(keys, vec![0, 1, 2, 3, 5, 7, 8, 9]);
    for w in keys.windows(2) {
        assert!(w[0] < w[1]);
    }
}

#[test]
fn insert_overwrites() {
    let mut sk = SkipList::new();
    assert_eq!(sk.insert(4u64, 100u64), None);
    assert_eq!(sk.insert(4, 200), Some(100));
    assert_eq!(sk.get(&4), Some(&200));
}

#[test]
fn remove_present_and_absent() {
    let mut sk = SkipList::new();
    sk.insert(1u64, 10u64);
    sk.insert(2, 20);
    sk.insert(3, 30);
    assert_eq!(sk.remove(&2), Some(20));
    assert_eq!(sk.get(&2), None);
    // removing an absent key leaves the map unchanged
    assert_eq!(sk.remove(&2), None);
    let mut it = sk.iter();
    assert_eq!(it.next(), Some((&1, &10)));
    assert_eq!(it.next(), Some((&3, &30)));
    assert_eq!(it.next(), None);
}

#[test]
fn round_trip() {
    let mut sk = SkipList::new();
    for k in 0u64..50 {
        sk.insert(k * 3, k + 1000);
    }
    sk.remove(&30);
    for k in 0u64..50 {
        if k * 3 == 30 {
            assert_eq!(sk.get(&(k * 3)), None);
        } else {
            assert_eq!(sk.get(&(k * 3)), Some(&(k + 1000)));
        }
    }
    assert_eq!(sk.get(&1), None);
}

#[test]
fn get_mut_updates() {
    let mut sk = SkipList::new();
    sk.insert(7u64, 70u64);
    assert_eq!(sk.get_mut(&8), None);
    if let Some(v) = sk.get_mut(&7) {
        *v = 77;
    }
    assert_eq!(sk.get(&7), Some(&77));
}

#[test]
fn into_iter_consumes_in_order() {
    let mut sk = SkipList::new();
    for k in [10u64, 15, 12, 52, 22, 32] {
        sk.insert(k, k);
    }
    let mut it = sk.into_iter();
    let mut out = Vec::new();
    while let Some((k, v)) = it.next() {
        assert_eq!(k, v);
        out.push(k);
    }
    assert_eq!(out, vec![10, 12, 15, 22, 32, 52]);
}

#[test]
fn height_grows_slowly() {
    // the statistical sanity bound: after inserting many random distinct
    // keys, the height stays logarithmic-ish, far under this generous cap
    let mut sk = SkipList::new();
    assert_eq!(sk.height(), 0);
    for _ in 0..1024 {
        let k: u64 = rand::random();
        sk.insert(k, 0u64);
    }
    assert!(sk.height() >= 1);
    assert!(sk.height() <= 60);
}
