use fjump::ui::{browse, page_rows, run_keys, select, Key, Picker, Step, PAGE_SIZE};

fn items(n: usize) -> Vec<(String, u32)> {
    (0..n).map(|i| (format!("/d/item{i}"), (100 - i) as u32)).collect()
}

#[test]
fn down_down_up_enter_picks_second() {
    let list = items(3);
    let keys = vec![Key::Down, Key::Down, Key::Up, Key::Enter];
    assert_eq!(select(&list, &keys), Some("/d/item1".to_string()));
}

#[test]
fn escape_picks_nothing() {
    let list = items(3);
    assert_eq!(select(&list, &vec![Key::Esc]), None);
    assert_eq!(select(&list, &vec![Key::Char('q'), Key::Enter]), None);
    assert_eq!(select(&list, &vec![Key::Interrupt]), None);
}

#[test]
fn digit_picks_row_directly() {
    let list = items(3);
    assert_eq!(select(&list, &vec![Key::Char('2')]), Some("/d/item1".to_string()));
    assert_eq!(browse(&list, &vec![Key::Char('3')]), Some("/d/item2".to_string()));
}

#[test]
fn digit_past_the_list_is_ignored() {
    let list = items(3);
    assert_eq!(select(&list, &vec![Key::Char('4'), Key::Char('0'), Key::Enter]), Some("/d/item0".to_string()));
    let long = items(12);
    assert_eq!(select(&long, &vec![Key::Char('0')]), Some("/d/item9".to_string()));
}

#[test]
fn cursor_stays_within_the_list() {
    let list = items(3);
    let keys = vec![Key::Up, Key::Char('k'), Key::Down, Key::Down, Key::Down, Key::Char('j'), Key::Enter];
    assert_eq!(select(&list, &keys), Some("/d/item2".to_string()));
}

#[test]
fn keys_running_out_pick_nothing() {
    let list = items(3);
    assert_eq!(select(&list, &vec![Key::Down, Key::Tab, Key::Other]), None);
    assert_eq!(select(&Vec::new(), &vec![Key::Enter]), None);
    assert_eq!(run_keys(2, false, &vec![Key::ScrollDown, Key::Enter]), Some(1));
}

#[test]
fn step_reports_redraw_only_on_change_keys() {
    let mut p = Picker::start(3, false);
    assert_eq!(p.step(Key::Other), Step::Stay);
    assert_eq!(p.step(Key::Char('x')), Step::Stay);
    assert_eq!(p.step(Key::Tab), Step::Redraw);
    assert!(p.show_detail);
    assert_eq!(p.step(Key::Down), Step::Redraw);
    assert_eq!(p.selected, 1);
    assert_eq!(p.step(Key::Enter), Step::Commit(1));
}

#[test]
fn moves_that_change_nothing_do_not_redraw() {
    let mut p = Picker::start(2, false);
    assert_eq!(p.step(Key::Up), Step::Stay);
    assert_eq!(p.step(Key::ScrollUp), Step::Stay);
    assert_eq!(p.step(Key::Char('k')), Step::Stay);
    assert_eq!(p.step(Key::Down), Step::Redraw);
    assert_eq!(p.step(Key::Down), Step::Stay);
    assert_eq!(p.step(Key::Char('j')), Step::Stay);
    assert_eq!(p.step(Key::ScrollDown), Step::Stay);
    assert_eq!(p.selected, 1);
    assert_eq!(p.step(Key::Char('k')), Step::Redraw);
    assert_eq!(p.selected, 0);
}

#[test]
fn page_follows_the_cursor() {
    let mut p = Picker::start(8, false);
    assert_eq!(p.visible, PAGE_SIZE);
    for _ in 0..6 {
        p.step(Key::Down);
    }
    assert_eq!((p.selected, p.offset), (6, 2));
    for _ in 0..5 {
        p.step(Key::Up);
    }
    assert_eq!((p.selected, p.offset), (1, 1));
}

fn text(row: &[char]) -> String {
    row.iter().collect()
}

#[test]
fn page_rows_show_names_and_marker() {
    let list = items(7);
    let mut p = Picker::start(7, false);
    for _ in 0..5 {
        p.step(Key::Down);
    }
    let rows: Vec<String> = page_rows(&list, &p).iter().map(|r| text(r)).collect();
    assert_eq!(rows, vec!["  item1", "  item2", "  item3", "  item4", "> item5"]);
}

#[test]
fn page_rows_detail_shows_score_and_bar() {
    let list = vec![("/a/foo".to_string(), 40u32), ("/b/bar".to_string(), 10u32)];
    let p = Picker::start(2, true);
    let rows: Vec<String> = page_rows(&list, &p).iter().map(|r| text(r)).collect();
    assert_eq!(
        rows,
        vec![
            "> foo\x1b[90m   40 ========\x1b[0m".to_string(),
            "  bar\x1b[90m   10 ==      \x1b[0m".to_string(),
        ]
    );
}

#[test]
fn page_rows_wide_score_and_zero_maximum() {
    let list = vec![("/a/x".to_string(), 123456u32)];
    let p = Picker::start(1, true);
    assert_eq!(text(&page_rows(&list, &p)[0]), "> x\x1b[90m 123456 ========\x1b[0m");
    let zero = vec![("/a/y".to_string(), 0u32)];
    assert_eq!(text(&page_rows(&zero, &p)[0]), "> y\x1b[90m    0         \x1b[0m");
}
