use wks::propose::{
    can_propose, can_propose_cached, pickable_lines, propose, propose_cached, remember,
    sample_amount, starting_index, Cache, CacheEntry, Consideration, ConsiderationError,
};

fn strings(v: &[&str]) -> Vec<String> {
    v.iter().map(|s| s.to_string()).collect()
}

#[test]
fn reads_counts_and_percentages() {
    assert_eq!(Consideration::from_str("5"), Ok(Consideration::Number(5)));
    assert_eq!(Consideration::from_str("30%"), Ok(Consideration::Percentage(30)));
    assert_eq!(Consideration::from_str("x%"), Err(ConsiderationError::InvalidPercentage));
    assert_eq!(Consideration::from_str("300%"), Err(ConsiderationError::InvalidPercentage));
}

#[test]
fn starting_index_counts_back() {
    assert_eq!(starting_index(Consideration::Number(2), 5, 10), 3);
    assert_eq!(starting_index(Consideration::Number(9), 5, 10), 0);
    assert_eq!(starting_index(Consideration::Percentage(50), 8, 10), 3);
}

#[test]
fn recent_picks_are_not_pickable() {
    let lines: Vec<String> = vec!["a".into(), "b".into(), "c".into()];
    let remembered: Vec<String> = vec!["a".into(), "b".into()];
    let p = pickable_lines(&lines, &remembered, 1);
    assert_eq!(p, vec!["a".to_string(), "c".to_string()]);
    let q = pickable_lines(&lines, &remembered, 0);
    assert_eq!(q, vec!["c".to_string()]);
}

#[test]
fn amount_to_pick() {
    assert_eq!(sample_amount(None, 10), 1);
    assert_eq!(sample_amount(Some(Consideration::Number(3)), 10), 3);
    assert_eq!(sample_amount(Some(Consideration::Percentage(25)), 10), 2);
}

#[test]
fn remembering_forgets_the_oldest() {
    let mut remembered: Vec<String> = vec!["a".into(), "b".into()];
    remember(&mut remembered, vec!["c".into(), "d".into()], 3);
    assert_eq!(remembered, vec!["b".to_string(), "c".to_string(), "d".to_string()]);
    let mut few: Vec<String> = vec!["a".into()];
    remember(&mut few, vec!["b".into()], 5);
    assert_eq!(few, vec!["a".to_string(), "b".to_string()]);
}

#[test]
fn propose_picks_the_asked_number_of_pickable_lines() {
    let lines = strings(&["a", "b", "c", "d", "e"]);
    let mut remembered = strings(&["a", "b"]);
    let picked = propose(&lines, &mut remembered, Consideration::Number(5), Some(Consideration::Number(2)));
    assert_eq!(picked.len(), 2);
    assert_ne!(picked[0], picked[1]);
    for p in &picked {
        assert!(["c", "d", "e"].contains(&p.as_str()));
    }
    let mut expected = strings(&["a", "b"]);
    expected.extend(picked.iter().cloned());
    assert_eq!(remembered, expected);
}

#[test]
fn propose_takes_every_pickable_line_when_asked_for_more() {
    let lines = strings(&["a", "b", "c"]);
    let mut remembered = strings(&["b"]);
    let picked = propose(&lines, &mut remembered, Consideration::Number(1), Some(Consideration::Number(10)));
    assert_eq!(picked, strings(&["a", "c"]));
    assert_eq!(remembered, strings(&["b", "a", "c"]));
}

#[test]
fn propose_one_line_by_default_and_forgets_the_oldest() {
    let lines = strings(&["a", "b"]);
    let mut remembered = strings(&["a", "a"]);
    let picked = propose(&lines, &mut remembered, Consideration::Percentage(100), None);
    assert_eq!(picked, strings(&["b"]));
    assert_eq!(remembered, strings(&["a", "b"]));
    let picked = propose(&lines, &mut remembered, Consideration::Number(0), Some(Consideration::Percentage(50)));
    assert_eq!(picked.len(), 1);
    assert_eq!(remembered.len(), 2);
}

#[test]
fn propose_overflow_is_caught_before() {
    let lines = strings(&["a"]);
    assert!(can_propose(&lines, &vec![], Consideration::Percentage(100), None));
    assert!(can_propose(&lines, &vec![], Consideration::Number(3), Some(Consideration::Percentage(100))));
}

#[test]
fn propose_cached_adds_and_updates_entries() {
    let lines = strings(&["a", "b", "c"]);
    let mut cache = Cache {
        entries: vec![CacheEntry { name: "x".into(), remembered: strings(&["a", "b"]) }],
    };
    let name = "x".to_string();
    assert!(can_propose_cached(&cache, &name, &lines, Consideration::Number(5), None));
    let picked = propose_cached(&mut cache, &name, &lines, Consideration::Number(5), None);
    assert_eq!(picked, strings(&["c"]));
    assert_eq!(cache.entries.len(), 1);
    assert_eq!(cache.entries[0].remembered, strings(&["a", "b", "c"]));
    let other = "y".to_string();
    let picked = propose_cached(&mut cache, &other, &lines, Consideration::Number(5), Some(Consideration::Number(3)));
    assert_eq!(picked.len(), 3);
    assert_eq!(cache.entries.len(), 2);
    assert_eq!(cache.entries[1].name, "y");
    assert_eq!(cache.entries[1].remembered.len(), 3);
    assert_eq!(cache.entries[0].remembered, strings(&["a", "b", "c"]));
}
