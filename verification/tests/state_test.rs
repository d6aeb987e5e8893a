use diwa_sync::state::{
    PeerState, RepoState, Save, SaveReply, SaveRequest, State, Table, ASIDE_EXTENSION,
};

fn entry(state: &State, peer: &str, repo: &str) -> Option<(Option<String>, Option<i64>)> {
    state
        .peers
        .get(peer)
        .and_then(|p| p.repos.get(repo))
        .map(|r| (r.last_merged_at.clone(), r.last_local_after))
}

#[test]
fn missing_and_blank_state_files_are_empty() {
    assert_eq!(State::load(None).unwrap().peers.len(), 0);
    assert_eq!(State::load(Some("")).unwrap().peers.len(), 0);
    assert_eq!(State::load(Some(" \n\t")).unwrap().peers.len(), 0);
    assert!(State::load(Some("{}")).is_none());
}

#[test]
fn record_is_read_back_and_leaves_the_rest() {
    let mut state = State::default();
    state.record_at("a", "one", 3, "t1".to_string());
    state.record_at("a", "two", 4, "t2".to_string());
    state.record_at("b", "one", 5, "t3".to_string());
    assert_eq!(entry(&state, "a", "one"), Some((Some("t1".to_string()), Some(3))));
    assert_eq!(entry(&state, "a", "two"), Some((Some("t2".to_string()), Some(4))));
    assert_eq!(entry(&state, "b", "one"), Some((Some("t3".to_string()), Some(5))));
    assert_eq!(entry(&state, "b", "two"), None);
    assert_eq!(entry(&state, "c", "one"), None);
}

#[test]
fn later_record_wins() {
    let mut state = State::default();
    state.record_at("a", "one", 3, "t1".to_string());
    state.record_at("a", "one", 9, "t2".to_string());
    assert_eq!(entry(&state, "a", "one"), Some((Some("t2".to_string()), Some(9))));
    assert_eq!(state.peers.len(), 1);
    assert_eq!(state.peers.get("a").unwrap().repos.len(), 1);
}

#[test]
fn record_notes_the_time() {
    let before = chrono::Utc::now();
    let mut state = State::default();
    state.record("a", "one", 3);
    let (at, rows) = entry(&state, "a", "one").unwrap();
    assert_eq!(rows, Some(3));
    let at = at.unwrap();
    assert!(at.len() >= 25 && at.ends_with("+00:00"));
    assert_eq!(&at[10..11], "T");
    let at = chrono::DateTime::parse_from_rfc3339(&at).unwrap();
    assert!(before <= at && at <= chrono::Utc::now());
}

#[test]
fn table_holds_each_key_once() {
    let mut table: Table<u32> = Table::new();
    assert_eq!(table.len(), 0);
    table.insert("k", 1);
    table.insert("l", 2);
    table.insert("k", 3);
    assert_eq!(table.len(), 2);
    assert_eq!(table.get("k"), Some(&3));
    let mut seen: Vec<(String, u32)> = (0..table.len())
        .map(|i| table.entry(i))
        .map(|(k, v)| (k.to_string(), *v))
        .collect();
    seen.sort();
    assert_eq!(seen, vec![("k".to_string(), 3), ("l".to_string(), 2)]);
    assert_eq!(table.remove("k"), Some(3));
    assert_eq!(table.remove("k"), None);
    assert_eq!(table.get("k"), None);
    assert_eq!(table.get("l"), Some(&2));
}

#[test]
fn fresh_entries_say_nothing() {
    let repo = RepoState::default();
    assert!(repo.last_merged_at.is_none());
    assert!(repo.last_local_after.is_none());
    assert_eq!(PeerState::default().repos.len(), 0);
}

/// The requests of a saving whose `fails`th request fails.
fn save(fails: usize) -> (Vec<SaveRequest>, Result<(), String>) {
    let mut save: Save = State::save();
    let mut seen = Vec::new();
    while let Some(q) = save.request() {
        let reply = if seen.len() == fails {
            SaveReply::Failed { cause: "boom".to_string() }
        } else {
            SaveReply::Done
        };
        seen.push(q);
        save = save.advance(reply);
    }
    (seen, save.into_result().unwrap())
}

#[test]
fn state_is_written_aside_and_renamed() {
    let all = vec![SaveRequest::MakeDir, SaveRequest::WriteAside, SaveRequest::Rename];
    assert_eq!(save(99), (all.clone(), Ok(())));
    for n in 0..3 {
        assert_eq!(save(n), (all[..n + 1].to_vec(), Err("boom".to_string())));
    }
    assert!(State::save().into_result().is_none());
    let path = std::path::PathBuf::from("/s/state.json").with_extension(ASIDE_EXTENSION);
    assert_eq!(path, std::path::PathBuf::from("/s/state.json.tmp"));
}
