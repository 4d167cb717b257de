use skiplist::range::Bound;
use skiplist::skip::SkipList;

fn filled() -> SkipList<u64, u64> {
    let mut sk = SkipList::new();
    sk.insert(10, 10);
    sk.insert(15, 15);
    sk.insert(12, 12);
    sk.insert(52, 52);
    sk.insert(22, 22);
    sk.insert(32, 32);
    sk
}

fn collect_range(sk: &SkipList<u64, u64>, start: Bound<u64>, end: Bound<u64>) -> Vec<(u64, u64)> {
    let mut out = Vec::new();
    let mut r = sk.range(start, end);
    while let Some((k, v)) = r.next() {
        out.push((*k, *v));
    }
    out
}

#[test]
fn range() {
    let mut sk = SkipList::new();
    sk.insert(10, 10);
    sk.insert(15, 15);
    sk.insert(12, 12);
    sk.insert(52, 52);
    sk.insert(22, 22);
    sk.insert(32, 32);

    println!("start iter");
    let mut it = sk.iter();
    while let Some((k, v)) = it.next() {
        println!("iter_kv {}: {}", k, v)
    }

    println!("start range");
    let mut r = sk.range(Bound::Included(15), Bound::Excluded(31));
    while let Some((k, v)) = r.next() {
        println!("range_kv {}: {}", k, v)
    }

    println!("start range2: 15..32");
    let mut r = sk.range(Bound::Included(15), Bound::Excluded(32));
    while let Some((k, v)) = r.next() {
        println!("range_kv {}: {}", k, v)
    }

    println!("start range2: 15..");
    let mut r = sk.range(Bound::Included(15), Bound::Unbounded);
    while let Some((k, v)) = r.next() {
        println!("range_kv {}: {}", k, v)
    }

    println!("start range2: ..33");
    let mut r = sk.range(Bound::Unbounded, Bound::Excluded(33));
    while let Some((k, v)) = r.next() {
        println!("range_kv {}: {}", k, v)
    }

    println!("start range2: ..");
    let mut r = sk.range(Bound::Unbounded, Bound::Unbounded);
    while let Some((k, v)) = r.next() {
        println!("range_kv {}: {}", k, v)
    }

    println!("start range_mut: 15..32");
    let mut r = sk.range_mut(Bound::Included(15), Bound::Excluded(32));
    while let Some((k, v)) = r.next() {
        println!("range_mut_kv {}: {}", k, v);
        *v = 1;
    }

    println!("start range3: ..");
    let mut r = sk.range(Bound::Unbounded, Bound::Unbounded);
    while let Some((k, v)) = r.next() {
        println!("range_kv {}: {}", k, v)
    }
}

#[test]
fn range_scenarios() {
    let sk = filled();
    assert_eq!(
        collect_range(&sk, Bound::Included(15), Bound::Excluded(32)),
        vec![(15, 15), (22, 22)]
    );
    assert_eq!(
        collect_range(&sk, Bound::Included(15), Bound::Unbounded),
        vec![(15, 15), (22, 22), (32, 32), (52, 52)]
    );
    assert_eq!(
        collect_range(&sk, Bound::Unbounded, Bound::Excluded(33)),
        vec![(10, 10), (12, 12), (15, 15), (22, 22), (32, 32)]
    );
    assert_eq!(
        collect_range(&sk, Bound::Unbounded, Bound::Unbounded),
        vec![(10, 10), (12, 12), (15, 15), (22, 22), (32, 32), (52, 52)]
    );
}

fn start_ok(start: &Bound<u64>, k: u64) -> bool {
    match start {
        Bound::Included(s) => k >= *s,
        Bound::Excluded(s) => k > *s,
        Bound::Unbounded => true,
    }
}

fn end_ok(end: &Bound<u64>, k: u64) -> bool {
    match end {
        Bound::Included(e) => k <= *e,
        Bound::Excluded(e) => k < *e,
        Bound::Unbounded => true,
    }
}

fn bounds_at(c: u8, k: u64) -> Bound<u64> {
    match c {
        0 => Bound::Included(k),
        1 => Bound::Excluded(k),
        _ => Bound::Unbounded,
    }
}

#[test]
fn range_is_filtered_iter() {
    // every inclusive/exclusive/open combination over several cut points
    // yields exactly the matching subsequence of iter()
    let sk = filled();
    let mut all = Vec::new();
    let mut it = sk.iter();
    while let Some((k, v)) = it.next() {
        all.push((*k, *v));
    }
    for cs in 0u8..3 {
        for ce in 0u8..3 {
            for ks in [5u64, 10, 15, 31, 32, 52, 60] {
                for ke in [5u64, 10, 15, 31, 32, 52, 60] {
                    let start = bounds_at(cs, ks);
                    let end = bounds_at(ce, ke);
                    let got = collect_range(&sk, bounds_at(cs, ks), bounds_at(ce, ke));
                    let want: Vec<(u64, u64)> = all
                        .iter()
                        .copied()
                        .filter(|(k, _)| start_ok(&start, *k) && end_ok(&end, *k))
                        .collect();
                    assert_eq!(got, want);
                }
            }
        }
    }
}

#[test]
fn empty_map_behaves() {
    let mut sk: SkipList<String, String> = SkipList::new();
    assert_eq!(sk.get(&"x".to_string()), None);
    assert_eq!(sk.remove(&"x".to_string()), None);
    let mut r = sk.range(Bound::Unbounded, Bound::Unbounded);
    assert_eq!(r.next(), None);
}

#[test]
fn crossed_bounds_are_empty() {
    let sk = filled();
    assert_eq!(collect_range(&sk, Bound::Included(32), Bound::Excluded(15)), vec![]);
    assert_eq!(collect_range(&sk, Bound::Excluded(15), Bound::Included(15)), vec![]);
    assert_eq!(collect_range(&sk, Bound::Included(60), Bound::Unbounded), vec![]);
}

#[test]
fn string_keys_order() {
    let mut sk: SkipList<String, u64> = SkipList::new();
    for (k, v) in [("pear", 1u64), ("apple", 2), ("fig", 3), ("apricot", 4)] {
        sk.insert(k.to_string(), v);
    }
    let mut keys = Vec::new();
    let mut it = sk.iter();
    while let Some((k, _)) = it.next() {
        keys.push(k.clone());
    }
    assert_eq!(keys, vec!["apple", "apricot", "fig", "pear"]);
    assert_eq!(sk.get(&"fig".to_string()), Some(&3));
}

#[test]
fn iter_mut_edits_values() {
    let mut sk = filled();
    let mut it = sk.iter_mut();
    while let Some((k, v)) = it.next() {
        *v = *k + 1;
    }
    let mut r = sk.iter();
    while let Some((k, v)) = r.next() {
        assert_eq!(*v, *k + 1);
    }
}

#[test]
fn range_mut_edits_only_bounded_values() {
    let mut sk = filled();
    let mut r = sk.range_mut(Bound::Included(15), Bound::Excluded(32));
    while let Some((_, v)) = r.next() {
        *v = 0;
    }
    let mut out = Vec::new();
    let mut it = sk.iter();
    while let Some((k, v)) = it.next() {
        out.push((*k, *v));
    }
    assert_eq!(out, vec![(10, 10), (12, 12), (15, 0), (22, 0), (32, 32), (52, 52)]);
}
