use yari::config::Config;
use yari::log::{Log, LogEntry};
use yari::raft::{ElectionResult, RaftState, Role, TimerAction};
use yari::rpc::{AppendRequest, AppendResponse, ClientRequest, VoteRequest};
use yari::servers::{RaftMessage, ServerConfigChange};
use yari::state_machine::in_memory_kv::{InMemoryKV, KVMessage};
use yari::TermIndex;

const A: &str = "http://127.0.0.1:9001";
const B: &str = "http://127.0.0.1:9002";
const C: &str = "http://127.0.0.1:9003";

type Node = RaftState<InMemoryKV>;

fn node(id: &str) -> Node {
    RaftState::new(id.to_string(), Config::default(), InMemoryKV::new())
}

fn ids(node: &Node) -> Vec<(usize, u64)> {
    node.log().entries().iter().map(|e| (e.index, e.term)).collect()
}

/// A single-member cluster whose only node has won its first election.
fn solitary_leader() -> Node {
    let mut a = node(A);
    a.bootstrap();
    a.commit();
    let ballot = a.prepare_election().unwrap();
    assert!(ballot.followers.is_empty());
    assert_eq!(a.complete_election(ballot.followers, &vec![]), ElectionResult::Elected);
    a.finish_replication_round(false, false);
    a
}

/// Every follower acknowledges the whole log, then the round ends.
fn round(a: &mut Node) {
    let last = a.log().last_index();
    let n = a.followers().as_ref().map_or(0, |f| f.len());
    let term = a.current_term();
    for k in 0..n {
        a.record_append_response(k, last, &AppendResponse { term, success: true });
    }
    a.finish_replication_round(true, false);
}

/// Leader A of the cluster {A, B, C}, membership changes committed one at a time.
fn cluster_leader() -> Node {
    let mut a = solitary_leader();
    a.member_add(B);
    round(&mut a);
    round(&mut a);
    a.member_add(C);
    round(&mut a);
    round(&mut a);
    a
}

fn heartbeat(term: u64, leader: &str) -> AppendRequest<RaftMessage<KVMessage>> {
    AppendRequest {
        term,
        leader_id: leader.to_string(),
        previous_log_index: None,
        previous_log_term: None,
        entries: None,
        leader_commit_index: 0,
    }
}

#[test]
fn fresh_node_is_follower() {
    let a = node(A);
    assert_eq!(a.role(), Role::Follower);
    assert_eq!(a.current_term(), 0);
    assert!(a.voted_for().is_none());
    assert!(!a.is_leader());
}

#[test]
fn bootstrap_single_node_set_then_get() {
    let mut a = solitary_leader();
    assert_eq!(a.role(), Role::Solitary);
    assert_eq!(a.current_term(), 1);
    assert!(a.servers().contains(A));
    let put = a.client(ClientRequest { message: KVMessage::Put("k".to_string(), "v".to_string()) }).unwrap();
    a.finish_replication_round(false, false);
    let get = a.client(ClientRequest { message: KVMessage::Get("k".to_string()) }).unwrap();
    a.finish_replication_round(false, false);
    let results = a.take_applied_results();
    assert_eq!(results.len(), 2);
    assert_eq!(results[0].0, put);
    assert_eq!(results[0].1, None);
    assert_eq!(results[1].0, get);
    assert_eq!(results[1].1, Some("v".to_string()));
    assert_eq!(a.commit_index(), get.1);
    assert_eq!(a.last_applied_index(), get.1);
    assert!(a.take_applied_results().is_empty());
}

#[test]
fn non_leader_redirects_client() {
    let mut b = node(B);
    let r = b.client(ClientRequest { message: KVMessage::Get("k".to_string()) });
    assert_eq!(r, Err(None));
    b.append(heartbeat(1, A));
    let r = b.client(ClientRequest { message: KVMessage::Get("k".to_string()) });
    assert_eq!(r, Err(Some(A.to_string())));
    assert!(b.log().is_empty());
}

#[test]
fn stale_append_on_follower_is_rejected() {
    let mut b = node(B);
    let request = AppendRequest {
        term: 9,
        leader_id: A.to_string(),
        previous_log_index: Some(5),
        previous_log_term: Some(9),
        entries: Some(vec![LogEntry { index: 6, term: 9, message: RaftMessage::Blank }]),
        leader_commit_index: 6,
    };
    let response = b.append(request);
    assert_eq!(response, AppendResponse { term: 0, success: false });
    assert!(b.log().is_empty());
    assert_eq!(b.current_term(), 9);
    assert_eq!(b.commit_index(), 0);
}

#[test]
fn append_from_older_term_fails() {
    let mut b = node(B);
    b.append(heartbeat(5, A));
    let response = b.append(heartbeat(3, C));
    assert_eq!(response, AppendResponse { term: 5, success: false });
    assert_eq!(b.current_term(), 5);
}

#[test]
fn follower_replicates_and_commits() {
    let a = solitary_leader();
    let mut b = node(B);
    let mut request = a.append_request_for(1);
    request.leader_commit_index = a.commit_index();
    let response = b.append(request);
    assert!(response.success);
    assert_eq!(ids(&b), ids(&a));
    assert_eq!(b.commit_index(), a.commit_index());
    assert_eq!(b.last_applied_index(), a.commit_index());
    assert!(b.servers().contains(A));
    assert_eq!(b.leader_id_for_client_redirection(), Some(A));
    assert!(b.take_applied_results().is_empty());
}

#[test]
fn leader_commit_is_capped_by_last_index() {
    let mut b = node(B);
    let mut request = heartbeat(1, A);
    request.entries = Some(vec![LogEntry { index: 1, term: 1, message: RaftMessage::Blank }]);
    request.leader_commit_index = 10;
    assert!(b.append(request).success);
    assert_eq!(b.commit_index(), 1);
}

#[test]
fn vote_granted_once_per_term() {
    let mut c = node(C);
    let request = |candidate: &str| VoteRequest {
        term: 2,
        candidate_id: candidate.to_string(),
        last_log_index: None,
        last_log_term: None,
    };
    let first = c.vote(request(A));
    assert!(first.vote_granted);
    assert_eq!(first.term, 0);
    assert_eq!(c.current_term(), 2);
    assert_eq!(c.voted_for(), Some(A));
    assert!(!c.vote(request(B)).vote_granted);
    assert_eq!(c.voted_for(), Some(A));
    assert!(c.vote(request(A)).vote_granted);
}

#[test]
fn vote_held_from_older_term_is_tested_first() {
    let mut c = node(C);
    let x = VoteRequest { term: 1, candidate_id: A.to_string(), last_log_index: None, last_log_term: None };
    assert!(c.vote(x).vote_granted);
    let y = VoteRequest { term: 2, candidate_id: B.to_string(), last_log_index: None, last_log_term: None };
    let r = c.vote(y);
    assert!(!r.vote_granted);
    assert_eq!(r.term, 1);
    assert_eq!(c.current_term(), 2);
    assert!(c.voted_for().is_none());
    let again = VoteRequest { term: 2, candidate_id: B.to_string(), last_log_index: None, last_log_term: None };
    assert!(c.vote(again).vote_granted);
    assert_eq!(c.voted_for(), Some(B));
}

#[test]
fn refusal_keeps_match_index_below_next_index() {
    let mut a = cluster_leader();
    let last = a.log().last_index().unwrap();
    let term = a.current_term();
    a.record_append_response(0, Some(last), &AppendResponse { term, success: true });
    let f = a.followers().as_ref().unwrap().get(0);
    assert_eq!((f.next_index, f.match_index), (last + 1, last));
    let step = a.record_append_response(0, None, &AppendResponse { term, success: false });
    assert!(step.retry && step.match_changed);
    let f = a.followers().as_ref().unwrap().get(0);
    assert_eq!((f.next_index, f.match_index), (last, last - 1));
    let step = a.record_append_response(0, None, &AppendResponse { term: term + 1, success: false });
    assert!(step.step_down && !step.retry);
}

#[test]
fn membership_change_waits_for_pending_follow_up() {
    let a = solitary_leader();
    let mut b = node(B);
    let mut request = a.append_request_for(1);
    request.leader_commit_index = a.commit_index();
    assert!(b.append(request).success);
    assert!(b.servers().has_pending());
    let before = ids(&b);
    b.member_add(C);
    b.member_remove(A);
    assert_eq!(ids(&b), before);
}

#[test]
fn one_follower_without_vote_loses_election() {
    let mut a = solitary_leader();
    a.member_add(B);
    a.finish_replication_round(false, false);
    a.append(heartbeat(a.current_term() + 1, B));
    let ballot = a.prepare_election().unwrap();
    assert_eq!(ballot.followers.len(), 1);
    assert_eq!(a.complete_election(ballot.followers, &vec![false]), ElectionResult::FailedQuorum);
    let ballot = a.prepare_election().unwrap();
    assert_eq!(a.complete_election(ballot.followers, &vec![true]), ElectionResult::Elected);
}

#[test]
fn refused_append_leaves_follower_log_and_commit() {
    let a = solitary_leader();
    let mut b = node(B);
    let mut request = a.append_request_for(1);
    request.leader_commit_index = a.commit_index();
    assert!(b.append(request).success);
    let before = ids(&b);
    let commit = b.commit_index();
    let stale = AppendRequest {
        term: b.current_term(),
        leader_id: A.to_string(),
        previous_log_index: Some(5),
        previous_log_term: Some(9),
        entries: None,
        leader_commit_index: commit,
    };
    assert!(!b.append(stale).success);
    assert_eq!(ids(&b), before);
    assert_eq!(b.commit_index(), commit);
}

#[test]
fn vote_refused_to_stale_log() {
    let a = solitary_leader();
    let mut b = node(B);
    let mut request = a.append_request_for(1);
    request.leader_commit_index = 0;
    b.append(request);
    let last = b.log().last_index().unwrap();
    let behind = VoteRequest { term: 5, candidate_id: C.to_string(), last_log_index: Some(last - 1), last_log_term: Some(1) };
    assert!(!b.vote(behind).vote_granted);
    let older_term = VoteRequest { term: 5, candidate_id: C.to_string(), last_log_index: Some(last + 3), last_log_term: Some(0) };
    assert!(!b.vote(older_term).vote_granted);
    let current = VoteRequest { term: 5, candidate_id: C.to_string(), last_log_index: Some(last), last_log_term: Some(1) };
    assert!(b.vote(current).vote_granted);
}

#[test]
fn vote_for_older_term_refused() {
    let mut c = node(C);
    c.append(heartbeat(4, A));
    let r = c.vote(VoteRequest { term: 3, candidate_id: B.to_string(), last_log_index: None, last_log_term: None });
    assert!(!r.vote_granted);
    assert_eq!(r.term, 4);
}

#[test]
fn ineligible_node_does_not_start_election() {
    let mut b = node(B);
    assert!(b.prepare_election().is_none());
    assert_eq!(b.current_term(), 0);
}

#[test]
fn election_needs_a_majority() {
    let a = cluster_leader();
    assert!(a.servers().contains(B) && a.servers().contains(C));
    let mut a2 = RaftState::restore(
        A.to_string(),
        Config::default(),
        InMemoryKV::new(),
        a.current_term(),
        None,
        Log::from_entries(a.log().entries().iter().map(|e| LogEntry { index: e.index, term: e.term, message: e.message.clone() }).collect()),
    );
    a2.commit();
    let term = a2.current_term();
    let ballot = a2.prepare_election().unwrap();
    assert_eq!(a2.current_term(), term + 1);
    assert_eq!(a2.role(), Role::Candidate);
    assert_eq!(ballot.followers.len(), 2);
    assert_eq!(ballot.request.term, term + 1);
    assert_eq!(ballot.request.last_log_index, a2.log().last_index());
    assert_eq!(a2.complete_election(ballot.followers, &vec![false, false]), ElectionResult::FailedQuorum);
    assert_eq!(a2.role(), Role::Candidate);
    let ballot = a2.prepare_election().unwrap();
    let before = a2.log().len();
    assert_eq!(a2.complete_election(ballot.followers, &vec![true, false]), ElectionResult::Elected);
    assert_eq!(a2.role(), Role::Leader);
    assert_eq!(a2.log().len(), before + 1);
    assert!(matches!(a2.log().get(before + 1).unwrap().message, RaftMessage::Blank));
}

#[test]
fn replication_round_advances_commit_on_majority() {
    let mut a = cluster_leader();
    let committed = a.commit_index();
    a.client(ClientRequest { message: KVMessage::Put("x".to_string(), "1".to_string()) }).unwrap();
    let last = a.log().last_index().unwrap();
    let k = 0;
    let next = a.followers().as_ref().unwrap().get(k).next_index;
    let request = a.append_request_for(next);
    let sent = request.entries.as_ref().and_then(|e| e.last().map(|x| x.index));
    assert_eq!(sent, Some(last));
    let step = a.record_append_response(k, sent, &AppendResponse { term: a.current_term(), success: true });
    assert!(!step.retry && !step.step_down && step.match_changed);
    assert_eq!(a.followers().as_ref().unwrap().get(k).match_index, last);
    a.finish_replication_round(true, false);
    assert!(a.commit_index() > committed);
    assert_eq!(a.commit_index(), last);
    assert_eq!(a.take_applied_results().last().unwrap().0, TermIndex(a.current_term(), last));
}

#[test]
fn failed_append_moves_next_index_back() {
    let mut a = solitary_leader();
    a.member_add(B);
    a.finish_replication_round(false, false);
    let next = a.followers().as_ref().unwrap().get(0).next_index;
    let step = a.record_append_response(0, None, &AppendResponse { term: a.current_term(), success: false });
    assert!(step.retry && !step.step_down && !step.match_changed);
    assert_eq!(a.followers().as_ref().unwrap().get(0).next_index, next - 1);
}

#[test]
fn higher_term_reply_steps_leader_down() {
    let mut a = solitary_leader();
    a.member_add(B);
    a.finish_replication_round(false, false);
    let step = a.record_append_response(0, None, &AppendResponse { term: a.current_term() + 1, success: false });
    assert!(step.step_down);
    a.finish_replication_round(false, step.step_down);
    assert_eq!(a.role(), Role::Follower);
}

#[test]
fn higher_term_append_steps_leader_down() {
    let mut a = solitary_leader();
    let term = a.current_term();
    a.append(heartbeat(term + 1, B));
    assert!(!a.is_leader());
    assert_eq!(a.current_term(), term + 1);
    assert_eq!(a.leader_id_for_client_redirection(), Some(B));
}

#[test]
fn removed_leader_steps_down() {
    let mut a = cluster_leader();
    a.member_remove(A);
    round(&mut a);
    assert!(a.servers().contains(A));
    assert!(a.is_leader());
    round(&mut a);
    assert!(!a.servers().contains(A));
    assert!(!a.is_leader());
}

#[test]
fn restore_resets_volatile_state() {
    let mut a = solitary_leader();
    for i in 0..10 {
        a.client(ClientRequest { message: KVMessage::Put(format!("k{i}"), format!("{i}")) }).unwrap();
    }
    a.finish_replication_round(false, false);
    let entries: Vec<LogEntry<RaftMessage<KVMessage>>> = a
        .log()
        .entries()
        .iter()
        .map(|e| LogEntry { index: e.index, term: e.term, message: e.message.clone() })
        .collect();
    let last = entries.len();
    let mut restored = RaftState::restore(
        A.to_string(),
        Config::default(),
        InMemoryKV::new(),
        a.current_term(),
        a.voted_for().map(|s| s.to_string()),
        Log::from_entries(entries),
    );
    assert_eq!(restored.current_term(), a.current_term());
    assert_eq!(restored.voted_for(), a.voted_for());
    assert_eq!(ids(&restored), ids(&a));
    assert_eq!(restored.commit_index(), 0);
    assert_eq!(restored.last_applied_index(), 0);
    assert!(!restored.is_leader());
    restored.commit();
    let ballot = restored.prepare_election().unwrap();
    assert_eq!(restored.complete_election(ballot.followers, &vec![]), ElectionResult::Elected);
    restored.finish_replication_round(false, false);
    assert!(restored.commit_index() >= last);
}

#[test]
fn update_commit_index_needs_current_term_entry() {
    let mut a = cluster_leader();
    let term = a.current_term();
    // B reports a higher term: leadership ends
    a.append(heartbeat(term + 1, B));
    let ballot = a.prepare_election().unwrap();
    assert_eq!(a.complete_election(ballot.followers, &vec![true, true]), ElectionResult::Elected);
    let committed = a.commit_index();
    let last = a.log().last_index().unwrap();
    // the follower holds everything but the new blank entry
    a.record_append_response(0, Some(last - 1), &AppendResponse { term: a.current_term(), success: true });
    a.finish_replication_round(true, false);
    assert_eq!(a.commit_index(), committed);
    a.record_append_response(0, Some(last), &AppendResponse { term: a.current_term(), success: true });
    a.finish_replication_round(true, false);
    assert_eq!(a.commit_index(), last);
}

#[test]
fn config_change_follow_up_is_appended_by_leader() {
    let mut a = solitary_leader();
    a.member_add(B);
    let before = a.log().len();
    a.finish_replication_round(false, false);
    assert_eq!(a.log().len(), before + 1);
    match &a.log().get(before + 1).unwrap().message {
        RaftMessage::ServerConfigChange(c) => {
            assert!(c.new_members().is_none());
            let mut current = c.current().clone();
            current.sort();
            assert_eq!(current, vec![A.to_string(), B.to_string()]);
        }
        _ => panic!("expected a membership change"),
    }
}

#[test]
fn generate_election_timeout_in_window() {
    let a = node(A);
    for _ in 0..50 {
        let t = a.generate_election_timeout();
        assert!((150..300).contains(&t));
    }
}

#[test]
fn server_config_change_message_converts() {
    let change = ServerConfigChange::from_lists(vec![A.to_string()], None);
    let m: RaftMessage<KVMessage> = RaftMessage::ServerConfigChange(change);
    assert!(matches!(m, RaftMessage::ServerConfigChange(_)));
}

#[test]
fn timer_action_follows_role() {
    let b = node(B);
    match b.timer_action() {
        TimerAction::ElectionTimeout(t) => assert!((150..300).contains(&t)),
        other => panic!("unexpected {:?}", other),
    }
    let a = solitary_leader();
    assert_eq!(a.timer_action(), TimerAction::Heartbeat(75));
}
