use skiplist::store;
use skiplist::store::Error;
use skiplist::store::DB;

#[test]
fn set_then_get() {
    let mut db = DB::new();
    assert_eq!(store::get(&db, "2019"), None);
    store::set(&mut db, "2019", "2.41");
    store::set(&mut db, "2020", "0.93");
    assert_eq!(store::get(&db, "2019"), Some("2.41".to_string()));
    assert_eq!(store::get(&db, "2020"), Some("0.93".to_string()));
    store::set(&mut db, "2019", "2.50");
    assert_eq!(store::get(&db, "2019"), Some("2.50".to_string()));
}

#[test]
fn replay_lines() {
    let mut db = DB::new();
    let lines = vec![
        "".to_string(),
        "2018\t2.91".to_string(),
        "  2019\t2.41 ".to_string(),
        "2018\t3.00".to_string(),
        "   ".to_string(),
    ];
    let r = store::init(&mut db, &lines);
    assert!(r.is_ok());
    // the later record for a key wins, surrounding whitespace is trimmed
    assert_eq!(store::get(&db, "2018"), Some("3.00".to_string()));
    assert_eq!(store::get(&db, "2019"), Some("2.41".to_string()));
    assert_eq!(store::get(&db, "2020"), None);
}

#[test]
fn replay_rejects_malformed_line() {
    let mut db = DB::new();
    let lines = vec!["2018\t2.91".to_string(), "no separator here".to_string()];
    let r = store::init(&mut db, &lines);
    assert_eq!(r, Err(Error::InvalidFormat));
    // records before the bad line were applied
    assert_eq!(store::get(&db, "2018"), Some("2.91".to_string()));
}

#[test]
fn record_value_may_contain_tabs() {
    let mut db = DB::new();
    let lines = vec!["k\ta\tb".to_string()];
    assert!(store::init(&mut db, &lines).is_ok());
    // the split happens at the first tab only
    assert_eq!(store::get(&db, "k"), Some("a\tb".to_string()));
}
