use yari::log::{Log, LogEntry};
use yari::rpc::AppendRequest;
use yari::TermIndex;

fn entry(index: usize, term: u64, message: &str) -> LogEntry<String> {
    LogEntry { index, term, message: message.to_string() }
}

fn log_of(terms: &[u64]) -> Log<String> {
    let entries = terms
        .iter()
        .enumerate()
        .map(|(i, t)| entry(i + 1, *t, &format!("m{}", i + 1)))
        .collect();
    Log::from_entries(entries)
}

fn request(
    prev_index: Option<usize>,
    prev_term: Option<u64>,
    entries: Option<Vec<LogEntry<String>>>,
) -> AppendRequest<String> {
    AppendRequest {
        term: 1,
        leader_id: "http://127.0.0.1:9001".to_string(),
        previous_log_index: prev_index,
        previous_log_term: prev_term,
        entries,
        leader_commit_index: 0,
    }
}

fn ids(log: &Log<String>) -> Vec<(usize, u64)> {
    log.entries().iter().map(|e| (e.index, e.term)).collect()
}

#[test]
fn empty_log_has_no_last_index() {
    let log: Log<String> = Log::new();
    assert!(log.is_empty());
    assert_eq!(log.last_index(), None);
    assert_eq!(log.last_term(), None);
    assert_eq!(log.next_index(), 1);
}

#[test]
fn index_zero_gives_nothing() {
    let log = log_of(&[1, 1]);
    assert!(log.get(0).is_none());
    assert!(log.entries_starting_at(0).is_none());
    assert!(log.previous_entry_to(0).is_none());
    assert!(log.previous_entry_to(1).is_none());
    assert_eq!(log.previous_entry_to(2).unwrap().index, 1);
}

#[test]
fn contains_term_at_index_cases() {
    let log = log_of(&[1, 2]);
    assert!(log.contains_term_at_index(None, None));
    assert!(log.contains_term_at_index(Some(2), Some(2)));
    assert!(!log.contains_term_at_index(Some(1), Some(2)));
    assert!(!log.contains_term_at_index(Some(1), None));
    assert!(!log.contains_term_at_index(None, Some(1)));
    assert!(!log.contains_term_at_index(Some(9), Some(5)));
}

#[test]
fn last_index_in_term_scans_from_the_end() {
    let log = log_of(&[1, 1, 2, 2, 3]);
    assert_eq!(log.last_index_in_term(1), Some(2));
    assert_eq!(log.last_index_in_term(2), Some(4));
    assert_eq!(log.last_index_in_term(3), Some(5));
    assert_eq!(log.last_index_in_term(4), None);
}

#[test]
fn entries_starting_at_returns_the_suffix() {
    let log = log_of(&[1, 1, 2]);
    let suffix = log.entries_starting_at(2).unwrap();
    assert_eq!(suffix.iter().map(|e| e.index).collect::<Vec<_>>(), vec![2, 3]);
    assert_eq!(suffix[1].message, "m3");
    assert!(log.entries_starting_at(4).is_none());
}

#[test]
fn client_append_assigns_next_index() {
    let mut log = log_of(&[1]);
    let ti = log.client_append(3, "x".to_string());
    assert_eq!(ti, TermIndex(3, 2));
    assert_eq!(ids(&log), vec![(1, 1), (2, 3)]);
}

#[test]
fn truncate_removes_from_index() {
    let mut log = log_of(&[1, 1, 1]);
    log.truncate(2);
    assert_eq!(ids(&log), vec![(1, 1)]);
}

#[test]
fn first_conflicting_index_finds_term_mismatch() {
    let log = log_of(&[1, 1, 1]);
    let batch = Some(vec![entry(2, 1, "a"), entry(3, 2, "b"), entry(4, 2, "c")]);
    assert_eq!(log.first_conflicting_index(&batch), Some(3));
    let agreeing = Some(vec![entry(2, 1, "a"), entry(3, 1, "b")]);
    assert_eq!(log.first_conflicting_index(&agreeing), None);
    assert_eq!(log.first_conflicting_index(&None), None);
}

#[test]
fn stale_append_is_rejected_and_log_unchanged() {
    let mut log = log_of(&[1, 1]);
    let ok = log.append(request(Some(5), Some(9), Some(vec![entry(6, 9, "z")])));
    assert!(!ok);
    assert_eq!(ids(&log), vec![(1, 1), (2, 1)]);
}

#[test]
fn heartbeat_is_accepted() {
    let mut log = log_of(&[1, 1]);
    assert!(log.append(request(Some(2), Some(1), None)));
    assert_eq!(ids(&log), vec![(1, 1), (2, 1)]);
}

#[test]
fn append_truncates_at_conflict_then_appends() {
    let mut log = log_of(&[1, 1, 1, 1]);
    let ok = log.append(request(Some(1), Some(1), Some(vec![entry(2, 1, "a"), entry(3, 2, "b")])));
    assert!(ok);
    assert_eq!(ids(&log), vec![(1, 1), (2, 1), (3, 2)]);
    assert_eq!(log.get(2).unwrap().message, "m2");
    assert_eq!(log.get(3).unwrap().message, "b");
}

#[test]
fn append_keeps_entries_already_present() {
    let mut log = log_of(&[1, 1, 1]);
    let ok = log.append(request(Some(1), Some(1), Some(vec![entry(2, 1, "new")])));
    assert!(ok);
    assert_eq!(ids(&log), vec![(1, 1), (2, 1), (3, 1)]);
    assert_eq!(log.get(2).unwrap().message, "m2");
}

#[test]
fn append_twice_leaves_the_same_log() {
    let mut log = log_of(&[1, 1, 2]);
    let batch = || Some(vec![entry(3, 3, "c"), entry(4, 3, "d")]);
    assert!(log.append(request(Some(2), Some(1), batch())));
    let once = ids(&log);
    assert!(log.append(request(Some(2), Some(1), batch())));
    assert_eq!(ids(&log), once);
    assert_eq!(once, vec![(1, 1), (2, 1), (3, 3), (4, 3)]);
}

#[test]
fn append_from_empty_log() {
    let mut log: Log<String> = Log::new();
    assert!(log.append(request(None, None, Some(vec![entry(1, 1, "a"), entry(2, 1, "b")]))));
    assert_eq!(ids(&log), vec![(1, 1), (2, 1)]);
}

#[test]
fn batch_with_a_gap_is_refused() {
    let mut log = log_of(&[1]);
    assert!(!log.append(request(Some(1), Some(1), Some(vec![entry(3, 1, "gap")]))));
    assert_eq!(ids(&log), vec![(1, 1)]);
}

#[test]
fn receiver_matches_sender_after_append() {
    let leader = log_of(&[1, 1, 2, 3]);
    let mut follower = log_of(&[1, 1, 1, 1, 1]);
    let sent = leader.entries_starting_at(3).unwrap();
    assert!(follower.append(request(Some(2), Some(1), Some(sent))));
    assert_eq!(ids(&follower), ids(&leader));
    let messages = |l: &Log<String>| l.entries().iter().map(|e| e.message.clone()).collect::<Vec<_>>();
    assert_eq!(messages(&follower), messages(&leader));
}

#[test]
fn append_new_entries_not_in_log_skips_known_indices() {
    let mut log = log_of(&[1, 1]);
    log.append_new_entries_not_in_log(Some(vec![entry(2, 1, "b"), entry(3, 1, "c")]));
    assert_eq!(ids(&log), vec![(1, 1), (2, 1), (3, 1)]);
    assert_eq!(log.get(2).unwrap().message, "m2");
}

#[test]
fn entry_equality_ignores_the_message() {
    assert!(entry(1, 1, "a") == entry(1, 1, "b"));
    assert!(entry(1, 1, "a") != entry(1, 2, "a"));
    assert_eq!(entry(4, 2, "a").term_index(), TermIndex(2, 4));
}

#[test]
fn member_path_percent_encodes_the_id() {
    assert_eq!(yari::rpc::member_path("http://127.0.0.1:9002"), "/servers/http%3A%2F%2F127.0.0.1%3A9002");
    assert_eq!(yari::rpc::member_path("plain-id_1.x~"), "/servers/plain-id_1.x~");
    assert_eq!(yari::rpc::member_path_from_encoded("abc%20d"), "/servers/abc%20d");
}
