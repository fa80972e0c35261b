use safe_farming::listing::list_entries;
use safe_farming::shares::Share;
use safe_farming::sort::{sort, Ranked};
use std::collections::HashMap;

#[test]
fn numbers_are_sorted_upwards() {
    let mut values: Vec<u64> = vec![5, 1, u64::MAX, 3, 3, 0, 2];
    sort(&mut values);
    assert_eq!(values, vec![0, 1, 2, 3, 3, 5, u64::MAX]);

    let mut none: Vec<u64> = vec![];
    sort(&mut none);
    assert!(none.is_empty());
}

#[test]
fn shares_are_sorted_by_amount_and_then_by_account() {
    let share = |amount: u64, account: u64| Share { amount, account };
    let mut shares = vec![share(3, 1), share(1, 9), share(3, 0), share(0, u64::MAX), share(1, 2)];
    sort(&mut shares);
    assert_eq!(
        shares,
        vec![share(0, u64::MAX), share(1, 2), share(1, 9), share(3, 0), share(3, 1)]
    );
    assert!(share(1, 9).ranks_below(&share(2, 0)));
    assert!(share(1, 2).ranks_below(&share(1, 9)));
    assert!(!share(1, 9).ranks_below(&share(1, 9)));
    assert!(!share(2, 0).ranks_below(&share(1, 9)));
}

#[test]
fn every_entry_of_a_map_is_listed_once() {
    let mut map: HashMap<u64, u64> = HashMap::new();
    for id in 0..50u64 {
        let _ = map.insert(id * 7, id + 100);
    }
    let mut entries = list_entries(&map);
    assert_eq!(entries.len(), 50);
    entries.sort();
    for (i, (id, value)) in entries.iter().enumerate() {
        assert_eq!(*id, i as u64 * 7);
        assert_eq!(*value, i as u64 + 100);
    }
    assert!(list_entries(&HashMap::<u64, u64>::new()).is_empty());
}
