use fjump::frecency::{Entry, Store, UNIT};
use fjump::search::{find, find_at, rank, CONTAINS_BONUS, EXACT_BONUS, PREFIX_BONUS};

const NOW: u64 = 2_000_000_000;

fn strings(v: &[&str]) -> Vec<String> {
    v.iter().map(|s| s.to_string()).collect()
}

fn words(v: &[&str]) -> Vec<Vec<char>> {
    v.iter().map(|s| s.chars().collect()).collect()
}

/// A store in which `path` has a frecency of `uses` whole uses now.
fn store_with(entries: &[(&str, u64)]) -> Store {
    let mut store = Store::new();
    for (p, uses) in entries {
        // used just now: the weight is four times the score
        store.entries.push((p.to_string(), Entry { score: uses * UNIT / 4, last: NOW }));
    }
    store
}

#[test]
fn exact_name_ranks_first_without_frecency() {
    let dirs = strings(&["/a/foo", "/b/foobar"]);
    let r = rank(&dirs, &dirs, &words(&["foo"]), &Store::new(), NOW);
    assert_eq!(
        r,
        vec![
            ("/a/foo".to_string(), EXACT_BONUS as u32),
            ("/b/foobar".to_string(), PREFIX_BONUS as u32),
        ]
    );
}

#[test]
fn exact_name_ranks_first_in_either_order_inside_the_gap() {
    let store = store_with(&[("/b/foobar", 2400)]);
    let dirs = strings(&["/b/foobar", "/a/foo"]);
    let r = rank(&dirs, &dirs, &words(&["foo"]), &store, NOW);
    assert_eq!(r[0].0, "/a/foo");
    assert_eq!(r[1], ("/b/foobar".to_string(), 2900));
}

#[test]
fn exact_name_ranks_first_whatever_the_frecency() {
    let store = store_with(&[("/b/foobar", 2600)]);
    let dirs = strings(&["/b/foobar", "/a/foo"]);
    let r = rank(&dirs, &dirs, &words(&["foo"]), &store, NOW);
    assert_eq!(r[0], ("/a/foo".to_string(), EXACT_BONUS as u32));
    assert_eq!(r[1], ("/b/foobar".to_string(), 3100));
    let mut huge = Store::new();
    huge.entries.push(("/b/foobar".to_string(), Entry { score: u64::MAX, last: NOW }));
    let r = rank(&dirs, &dirs, &words(&["foo"]), &huge, NOW);
    assert_eq!(r[0].0, "/a/foo");
    assert_eq!(r[1], ("/b/foobar".to_string(), (EXACT_BONUS - 1) as u32));
}

#[test]
fn frecency_orders_exact_matches() {
    let store = store_with(&[("/2/foo", 30)]);
    let dirs = strings(&["/1/foo", "/2/foo"]);
    let r = rank(&dirs, &dirs, &words(&["foo"]), &store, NOW);
    assert_eq!(
        r,
        vec![
            ("/2/foo".to_string(), EXACT_BONUS as u32 + 30),
            ("/1/foo".to_string(), EXACT_BONUS as u32),
        ]
    );
}

#[test]
fn prefix_ranks_above_inner_match_inside_the_gap() {
    let store = store_with(&[("/x/afoo", 300)]);
    let dirs = strings(&["/x/afoo", "/x/foo"]);
    let r = rank(&dirs, &dirs, &words(&["fo"]), &store, NOW);
    assert_eq!(
        r,
        vec![
            ("/x/foo".to_string(), PREFIX_BONUS as u32),
            ("/x/afoo".to_string(), (CONTAINS_BONUS + 300) as u32),
        ]
    );
}

#[test]
fn inner_match_beyond_the_gap_ranks_above_prefix() {
    let store = store_with(&[("/x/afoo", 500)]);
    let dirs = strings(&["/x/foo", "/x/afoo"]);
    let r = rank(&dirs, &dirs, &words(&["fo"]), &store, NOW);
    assert_eq!(r[0], ("/x/afoo".to_string(), 600));
    assert_eq!(r[1], ("/x/foo".to_string(), 500));
}

#[test]
fn empty_query_ranks_nothing() {
    let dirs = strings(&["/a/foo", "/b/bar"]);
    assert!(find_at(&dirs, "", &Store::new(), NOW).is_empty());
    assert!(find_at(&dirs, "   ", &Store::new(), NOW).is_empty());
    assert!(find(&dirs, "", &Store::new()).is_empty());
    assert!(rank(&dirs, &dirs, &Vec::new(), &Store::new(), NOW).is_empty());
}

#[test]
fn frecent_exact_match_and_unmatched_candidate() {
    let mut store = Store::new();
    store.entries.push(("/x".to_string(), Entry { score: 5 * UNIT, last: NOW }));
    let dirs = strings(&["/x", "/y"]);
    let r = find_at(&dirs, "x", &store, NOW);
    assert_eq!(r, vec![("/x".to_string(), EXACT_BONUS as u32 + 20)]);
}

#[test]
fn query_and_paths_are_lowercased() {
    let dirs = strings(&["/Work/Foo", "/work/bar"]);
    let r = find_at(&dirs, "FOO", &Store::new(), NOW);
    assert_eq!(r, vec![("/Work/Foo".to_string(), EXACT_BONUS as u32)]);
}

#[test]
fn words_must_appear_in_order() {
    let dirs = strings(&["/a/my-web-app", "/b/web-my-app", "/c/myweb", "/d/app-my"]);
    let r = find_at(&dirs, "my  app", &Store::new(), NOW);
    assert_eq!(
        r,
        vec![
            ("/a/my-web-app".to_string(), PREFIX_BONUS as u32),
            ("/b/web-my-app".to_string(), CONTAINS_BONUS as u32),
        ]
    );
}

#[test]
fn words_may_not_overlap() {
    let dirs = strings(&["/abc", "/abcabc"]);
    let r = find_at(&dirs, "abc abc", &Store::new(), NOW);
    assert_eq!(r, vec![("/abcabc".to_string(), PREFIX_BONUS as u32)]);
}

#[test]
fn only_the_final_component_is_matched() {
    let store = store_with(&[("/proj/lib", 7)]);
    let dirs = strings(&["/proj/lib", "/proj/src", "/x/subproj"]);
    let r = find_at(&dirs, "proj", &store, NOW);
    assert_eq!(r, vec![("/x/subproj".to_string(), CONTAINS_BONUS as u32)]);
}

#[test]
fn equal_scores_keep_input_order() {
    let dirs = strings(&["/1/foo", "/2/foo", "/3/foo"]);
    let r = find_at(&dirs, "foo", &Store::new(), NOW);
    let order: Vec<&str> = r.iter().map(|(p, _)| p.as_str()).collect();
    assert_eq!(order, vec!["/1/foo", "/2/foo", "/3/foo"]);
}

#[test]
fn combined_score_saturates() {
    let mut store = Store::new();
    store.entries.push(("/big".to_string(), Entry { score: u64::MAX, last: NOW }));
    let dirs = strings(&["/big", "/bigger"]);
    let r = find_at(&dirs, "big", &store, NOW);
    assert_eq!(r[0], ("/big".to_string(), u32::MAX));
    assert_eq!(r[1], ("/bigger".to_string(), 500));
    let mut partial = Store::new();
    partial.entries.push(("/bigger".to_string(), Entry { score: u64::MAX, last: NOW }));
    let r = find_at(&dirs, "big", &partial, NOW);
    assert_eq!(r[0], ("/big".to_string(), EXACT_BONUS as u32));
    assert_eq!(r[1], ("/bigger".to_string(), (EXACT_BONUS - 1) as u32));
}
