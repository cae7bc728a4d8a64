use fjump::frecency::{Entry, Store, UNIT, WEEK};
use fjump::history::parse_line;
use fjump::index::{is_ignored, project_markers};
use fjump::jump::{plan_jump, plan_jump_at, top, Jump, MAX_CHOICES, MAX_TOP};
use fjump::search::{name_matches, EXACT_BONUS};

const NOW: u64 = 2_000_000_000;

fn strings(v: &[&str]) -> Vec<String> {
    v.iter().map(|s| s.to_string()).collect()
}

#[test]
fn no_match_means_no_jump() {
    let dirs = strings(&["/a/foo"]);
    assert!(matches!(plan_jump_at(&dirs, "/", "zzz", &Store::new(), NOW), Jump::Nothing));
    assert!(matches!(plan_jump(&dirs, "/", "", &Store::new()), Jump::Nothing));
}

#[test]
fn single_match_jumps_directly() {
    let dirs = strings(&["/a/foo", "/b/bar"]);
    match plan_jump_at(&dirs, "/", "bar", &Store::new(), NOW) {
        Jump::Direct(p) => assert_eq!(p, "/b/bar"),
        _ => panic!("expected a direct jump"),
    }
}

#[test]
fn current_directory_is_left_out() {
    let dirs = strings(&["/a/foo", "/b/foo"]);
    match plan_jump_at(&dirs, "/a/foo", "foo", &Store::new(), NOW) {
        Jump::Direct(p) => assert_eq!(p, "/b/foo"),
        _ => panic!("expected a direct jump"),
    }
}

#[test]
fn several_matches_go_to_the_picker_at_most_twenty() {
    let dirs: Vec<String> = (0..30).map(|i| format!("/p{i}/foo")).collect();
    match plan_jump_at(&dirs, "/", "foo", &Store::new(), NOW) {
        Jump::Pick(list) => {
            assert_eq!(list.len(), MAX_CHOICES);
            assert_eq!(list[0], ("/p0/foo".to_string(), EXACT_BONUS as u32));
            assert_eq!(list[19].0, "/p19/foo");
        }
        _ => panic!("expected a pick"),
    }
}

#[test]
fn top_lists_present_paths_by_frecency() {
    let mut store = Store::new();
    store.entries.push(("/old".to_string(), Entry { score: 8 * UNIT, last: NOW - 2 * WEEK }));
    store.entries.push(("/new".to_string(), Entry { score: 3 * UNIT, last: NOW }));
    store.entries.push(("/gone".to_string(), Entry { score: 100 * UNIT, last: NOW }));
    let present = strings(&["/old", "/new"]);
    let list = top(&store, NOW, &present);
    assert_eq!(list, vec![("/new".to_string(), 12), ("/old".to_string(), 2)]);
}

#[test]
fn top_keeps_at_most_fifty() {
    let mut store = Store::new();
    let mut present = Vec::new();
    for i in 0..60u64 {
        let p = format!("/d{i}");
        store.entries.push((p.clone(), Entry { score: (i + 1) * UNIT, last: NOW }));
        present.push(p);
    }
    let list = top(&store, NOW, &present);
    assert_eq!(list.len(), MAX_TOP);
    assert_eq!(list[0], ("/d59".to_string(), 240));
}

#[test]
fn ancestor_names_match_without_case() {
    assert!(name_matches("MyProject", "proj"));
    assert!(name_matches("code", "CODE"));
    assert!(!name_matches("code", "src"));
}

#[test]
fn scan_rules() {
    assert!(is_ignored("node_modules"));
    assert!(is_ignored(".git"));
    assert!(!is_ignored("src"));
    assert!(!is_ignored("node_module"));
    let markers = project_markers();
    assert_eq!(markers.len(), 13);
    assert!(markers.contains(&"Cargo.toml".to_string()));
}

#[test]
fn history_lines_split_at_bars() {
    assert_eq!(
        parse_line("/home/me/code|12.5|1700000000"),
        Some(("/home/me/code".to_string(), "12.5".to_string()))
    );
    assert_eq!(parse_line("/a|3"), Some(("/a".to_string(), "3".to_string())));
    assert_eq!(parse_line("|"), Some((String::new(), String::new())));
    assert_eq!(parse_line("no bar here"), None);
}

#[test]
fn put_replaces_or_adds() {
    let mut store = Store::new();
    store.put("/a".to_string(), Entry { score: 5, last: 1 });
    store.put("/b".to_string(), Entry { score: 6, last: 2 });
    store.put("/a".to_string(), Entry { score: 7, last: 3 });
    assert_eq!(
        store.entries,
        vec![
            ("/a".to_string(), Entry { score: 7, last: 3 }),
            ("/b".to_string(), Entry { score: 6, last: 2 }),
        ]
    );
}
