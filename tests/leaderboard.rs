use highscore_server::{high_scores_html, HighScoreEntry, HighScoreTable, StateError, CAPACITY};

fn entry(name: &str, score: u32) -> HighScoreEntry {
    HighScoreEntry { name: name.to_string(), score }
}

fn pairs(table: &HighScoreTable) -> Vec<(String, u32)> {
    table.snapshot().into_iter().map(|e| (e.name, e.score)).collect()
}

/// Ten entries scoring 100, 90, ..., 10.
fn full_table() -> HighScoreTable {
    let mut table = HighScoreTable::new();
    for i in 0..10u32 {
        table.add_entry(entry(&format!("p{}", i), 100 - 10 * i));
    }
    table
}

fn is_ranked(v: &[(String, u32)]) -> bool {
    v.windows(2).all(|w| w[0].1 >= w[1].1)
}

#[test]
fn first_submission_is_the_only_entry() {
    let mut table = HighScoreTable::new();
    table.add_entry(entry("alice", 50));
    assert_eq!(table.snapshot(), vec![entry("alice", 50)]);
}

#[test]
fn low_score_on_full_board_is_discarded() {
    let mut table = full_table();
    let before = table.snapshot();
    table.add_entry(entry("x", 5));
    assert_eq!(table.snapshot(), before);
    assert_eq!(table.snapshot().last().unwrap().score, 10);
}

#[test]
fn high_score_on_full_board_takes_its_rank() {
    let mut table = full_table();
    table.add_entry(entry("x", 95));
    let got = pairs(&table);
    assert_eq!(got.len(), 10);
    assert_eq!(got[0], ("p0".to_string(), 100));
    assert_eq!(got[1], ("x".to_string(), 95));
    assert_eq!(got[2], ("p1".to_string(), 90));
    assert!(got.iter().all(|p| p.1 != 10));
}

#[test]
fn new_table_is_empty() {
    let table = HighScoreTable::new();
    assert!(table.snapshot().is_empty());
    assert!(table.entries().is_empty());
}

#[test]
fn equal_scores_keep_arrival_order() {
    let mut table = HighScoreTable::new();
    table.add_entry(entry("a", 30));
    table.add_entry(entry("b", 30));
    assert_eq!(table.snapshot(), vec![entry("a", 30), entry("b", 30)]);
}

#[test]
fn equal_score_on_full_board_is_discarded() {
    let mut table = full_table();
    let before = table.snapshot();
    table.add_entry(entry("late", 10));
    assert_eq!(table.snapshot(), before);
}

#[test]
fn many_submissions_stay_bounded_and_ranked() {
    let mut table = HighScoreTable::new();
    let scores: [u32; 25] = [7, 3, 99, 0, 42, 42, 15, 88, 1, 60, 60, 23, 5, 77, 31, 64, 2, 99, 50, 18, 0, 91, 12, 45, 33];
    let mut submitted: Vec<(String, u32)> = Vec::new();
    for (i, s) in scores.iter().enumerate() {
        let name = format!("n{}", i);
        table.add_entry(entry(&name, *s));
        submitted.push((name, *s));
        let got = pairs(&table);
        assert!(got.len() <= CAPACITY);
        assert_eq!(got.len(), submitted.len().min(CAPACITY));
        assert!(is_ranked(&got));
        for p in &got {
            assert_eq!(got.iter().filter(|q| *q == p).count(), 1);
            assert!(submitted.contains(p));
        }
    }
    let got = pairs(&table);
    let mut best: Vec<u32> = scores.to_vec();
    best.sort_by(|a, b| b.cmp(a));
    best.truncate(CAPACITY);
    assert_eq!(got.iter().map(|p| p.1).collect::<Vec<u32>>(), best);
}

#[test]
fn empty_name_and_zero_score_are_accepted() {
    let mut table = HighScoreTable::new();
    table.add_entry(entry("", 0));
    assert_eq!(table.snapshot(), vec![entry("", 0)]);
}

#[test]
fn duplicate_entries_are_both_kept() {
    let mut table = HighScoreTable::new();
    table.add_entry(entry("bob", 12));
    table.add_entry(entry("bob", 12));
    assert_eq!(table.snapshot(), vec![entry("bob", 12), entry("bob", 12)]);
}

#[test]
fn largest_score_ranks_first() {
    let mut table = HighScoreTable::new();
    table.add_entry(entry("a", 1));
    table.add_entry(entry("max", u32::MAX));
    assert_eq!(table.snapshot()[0], entry("max", u32::MAX));
}

#[test]
fn reload_of_saved_entries_is_identical() {
    let mut table = full_table();
    table.add_entry(entry("x", 95));
    let saved = table.snapshot();
    let reloaded = HighScoreTable::from_entries(saved.clone()).unwrap();
    assert_eq!(reloaded.snapshot(), saved);
}

#[test]
fn reload_of_empty_list_is_empty() {
    let reloaded = HighScoreTable::from_entries(Vec::new()).unwrap();
    assert!(reloaded.snapshot().is_empty());
}

#[test]
fn reload_rejects_too_many_entries() {
    let list: Vec<HighScoreEntry> = (0..11u32).map(|i| entry("p", 100 - i)).collect();
    assert_eq!(HighScoreTable::from_entries(list).err(), Some(StateError::TooManyEntries));
}

#[test]
fn reload_rejects_unranked_entries() {
    let list = vec![entry("a", 10), entry("b", 20)];
    assert_eq!(HighScoreTable::from_entries(list).err(), Some(StateError::NotRanked));
}

#[test]
fn reload_keeps_equal_scores_in_order() {
    let list = vec![entry("b", 20), entry("a", 20), entry("c", 3)];
    let table = HighScoreTable::from_entries(list.clone()).unwrap();
    assert_eq!(table.snapshot(), list);
}

#[test]
fn empty_table_renders_header_only() {
    let table = HighScoreTable::new();
    assert_eq!(
        high_scores_html(&table),
        "<h1>High Scores</h1><table><tr><th>Name</th><th>Score</th></tr></table>"
    );
}

#[test]
fn rendered_rows_follow_entries() {
    let mut table = HighScoreTable::new();
    table.add_entry(entry("alice", 50));
    table.add_entry(entry("bob", 1207));
    table.add_entry(entry("carol", 0));
    assert_eq!(
        high_scores_html(&table),
        "<h1>High Scores</h1><table><tr><th>Name</th><th>Score</th></tr>\
         <tr><td>bob</td><td>1207</td></tr>\
         <tr><td>alice</td><td>50</td></tr>\
         <tr><td>carol</td><td>0</td></tr></table>"
    );
}

#[test]
fn rendered_scores_are_decimal() {
    let mut table = HighScoreTable::new();
    table.add_entry(entry("m", u32::MAX));
    table.add_entry(entry("t", 10));
    table.add_entry(entry("n", 9));
    let html = high_scores_html(&table);
    assert!(html.contains("<td>4294967295</td>"));
    assert!(html.contains("<td>10</td>"));
    assert!(html.contains("<td>9</td>"));
}

#[test]
fn structured_and_rendered_reads_agree() {
    let mut table = full_table();
    table.add_entry(entry("x", 95));
    let mut expected = String::from("<h1>High Scores</h1><table><tr><th>Name</th><th>Score</th></tr>");
    for e in table.snapshot() {
        expected.push_str(&format!("<tr><td>{}</td><td>{}</td></tr>", e.name, e.score));
    }
    expected.push_str("</table>");
    assert_eq!(high_scores_html(&table), expected);
}
