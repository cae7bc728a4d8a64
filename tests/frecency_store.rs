use fjump::frecency::{
    age, boost, boost_at, frecency_at, prune, score_at, Entry, Store, DAY, HOUR, MAX_TOTAL,
    PRUNE_AGE, UNIT, WEEK,
};

fn total(store: &Store) -> u64 {
    store.entries.iter().map(|(_, e)| e.score).sum()
}

fn entry_of<'a>(store: &'a Store, path: &str) -> Option<&'a Entry> {
    store.entries.iter().find(|(p, _)| p == path).map(|(_, e)| e)
}

#[test]
fn boost_creates_entry_with_one_use() {
    let mut store = Store::new();
    boost_at(&mut store, "/a", 100);
    assert_eq!(store.entries.len(), 1);
    assert_eq!(entry_of(&store, "/a"), Some(&Entry { score: UNIT, last: 100 }));
}

#[test]
fn boost_twice_adds_up_and_moves_last_use() {
    let mut store = Store::new();
    boost_at(&mut store, "/a", 100);
    boost_at(&mut store, "/a", 250);
    boost_at(&mut store, "/b", 300);
    assert_eq!(store.entries.len(), 2);
    assert_eq!(entry_of(&store, "/a"), Some(&Entry { score: 2 * UNIT, last: 250 }));
    assert_eq!(entry_of(&store, "/b"), Some(&Entry { score: UNIT, last: 300 }));
}

#[test]
fn boost_now_records_a_use() {
    let mut store = Store::new();
    boost(&mut store, "/now");
    let e = entry_of(&store, "/now").unwrap();
    assert_eq!(e.score, UNIT);
    assert!(e.last > 1_600_000_000);
}

#[test]
fn age_below_ceiling_changes_nothing() {
    let mut store = Store::new();
    store.entries.push(("/a".to_string(), Entry { score: 6_000_000, last: 1 }));
    store.entries.push(("/b".to_string(), Entry { score: 4_000_000, last: 2 }));
    age(&mut store);
    assert_eq!(total(&store), 10_000_000);
    assert_eq!(store.entries.len(), 2);
}

#[test]
fn age_scales_to_nine_tenths_and_drops_small_entries() {
    let mut store = Store::new();
    store.entries.push(("/a".to_string(), Entry { score: 6_000_000, last: 1 }));
    store.entries.push(("/b".to_string(), Entry { score: 5_000_000, last: 2 }));
    store.entries.push(("/c".to_string(), Entry { score: 1_000, last: 3 }));
    age(&mut store);
    // factor 9_000_000 / 11_001_000
    assert_eq!(entry_of(&store, "/a").unwrap().score, 4_908_644);
    assert_eq!(entry_of(&store, "/b").unwrap().score, 4_090_537);
    assert!(entry_of(&store, "/c").is_none());
    assert_eq!(entry_of(&store, "/a").unwrap().last, 1);
}

#[test]
fn decay_keeps_total_bounded_over_many_boosts() {
    let mut store = Store::new();
    for i in 0..10_050u64 {
        let path = if i % 3 == 0 { "/x" } else { "/y" };
        boost_at(&mut store, path, i);
        assert!(total(&store) <= MAX_TOTAL);
    }
    assert!(total(&store) > 0);
}

#[test]
fn frecency_multiplier_steps() {
    let e = Entry { score: 5 * UNIT, last: 1_000_000 };
    assert_eq!(frecency_at(&e, 1_000_000), 20);
    assert_eq!(frecency_at(&e, 1_000_000 + HOUR - 1), 20);
    assert_eq!(frecency_at(&e, 1_000_000 + HOUR), 10);
    assert_eq!(frecency_at(&e, 1_000_000 + DAY), 2);
    assert_eq!(frecency_at(&e, 1_000_000 + WEEK), 1);
    // a last use in the future counts as now
    assert_eq!(frecency_at(&e, 10), 20);
}

#[test]
fn more_recent_use_weighs_at_least_as_much() {
    let now = 10 * WEEK;
    let older = Entry { score: 3 * UNIT, last: now - 2 * DAY };
    let newer = Entry { score: 3 * UNIT, last: now - 2 * HOUR };
    assert!(frecency_at(&newer, now) >= frecency_at(&older, now));
    assert_eq!(frecency_at(&newer, now), 6);
    assert_eq!(frecency_at(&older, now), 1);
}

#[test]
fn score_of_unknown_path_is_zero() {
    let mut store = Store::new();
    boost_at(&mut store, "/a", 50);
    assert_eq!(score_at(&store, "/b", 50), 0);
    assert_eq!(score_at(&store, "/a", 50), 4);
}

fn prune_fixture(now: u64) -> Store {
    let mut store = Store::new();
    let old = now - PRUNE_AGE - 1;
    store.entries.push(("/gone-old".to_string(), Entry { score: UNIT, last: old }));
    store.entries.push(("/here-old".to_string(), Entry { score: UNIT, last: old }));
    store.entries.push(("/gone-new".to_string(), Entry { score: UNIT, last: now - DAY }));
    store.entries.push(("/gone-edge".to_string(), Entry { score: UNIT, last: now - PRUNE_AGE }));
    store
}

#[test]
fn prune_forgets_only_old_missing_paths() {
    let now = 1_000 * DAY;
    let mut store = prune_fixture(now);
    let present = vec!["/here-old".to_string()];
    prune(&mut store, now, &present);
    let kept: Vec<&str> = store.entries.iter().map(|(p, _)| p.as_str()).collect();
    assert_eq!(kept, vec!["/here-old", "/gone-new", "/gone-edge"]);
}

#[test]
fn prune_twice_equals_prune_once() {
    let now = 1_000 * DAY;
    let present = vec!["/here-old".to_string()];
    let mut once = prune_fixture(now);
    prune(&mut once, now, &present);
    let mut twice = prune_fixture(now);
    prune(&mut twice, now, &present);
    prune(&mut twice, now, &present);
    assert_eq!(once.entries, twice.entries);
}
