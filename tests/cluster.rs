use yari::config::Config;
use yari::raft::{ElectionResult, RaftState, Role};
use yari::rpc::ClientRequest;
use yari::state_machine::in_memory_kv::{InMemoryKV, KVMessage};

const IDS: [&str; 3] = ["http://127.0.0.1:9001", "http://127.0.0.1:9002", "http://127.0.0.1:9003"];

type Node = RaftState<InMemoryKV>;

/// Nodes that talk by direct calls; a node that is down answers nothing.
struct Cluster {
    nodes: Vec<Node>,
    up: Vec<bool>,
}

impl Cluster {
    fn new() -> Cluster {
        Cluster {
            nodes: IDS.iter().map(|id| RaftState::new(id.to_string(), Config::default(), InMemoryKV::new())).collect(),
            up: vec![true; IDS.len()],
        }
    }

    fn at(&self, id: &str) -> usize {
        IDS.iter().position(|i| *i == id).unwrap()
    }

    /// One replication round driven by node `l`.
    fn replicate(&mut self, l: usize) {
        let count = match self.nodes[l].followers() {
            Some(f) => f.len(),
            None => return,
        };
        let mut any_change = false;
        let mut step_down = false;
        for k in 0..count {
            loop {
                let (id, next) = {
                    let f = self.nodes[l].followers().as_ref().unwrap().get(k);
                    (f.identifier.clone(), f.next_index)
                };
                let j = self.at(&id);
                if !self.up[j] {
                    break;
                }
                let request = self.nodes[l].append_request_for(next);
                let last_sent = request.entries.as_ref().and_then(|e| e.last()).map(|e| e.index);
                let response = self.nodes[j].append(request);
                let step = self.nodes[l].record_append_response(k, last_sent, &response);
                any_change |= step.match_changed;
                step_down |= step.step_down;
                if !step.retry {
                    break;
                }
            }
        }
        self.nodes[l].finish_replication_round(any_change, step_down);
    }

    fn rounds(&mut self, l: usize, n: usize) {
        for _ in 0..n {
            self.replicate(l);
        }
    }

    /// Node `i` stands for election and asks every peer that is up.
    fn elect(&mut self, i: usize) -> ElectionResult {
        let Some(ballot) = self.nodes[i].prepare_election() else {
            return ElectionResult::Ineligible;
        };
        let granted: Vec<bool> = ballot
            .followers
            .iter()
            .iter()
            .map(|f| {
                let j = self.at(&f.identifier);
                self.up[j] && self.nodes[j].vote(ballot.request.clone()).vote_granted
            })
            .collect();
        let result = self.nodes[i].complete_election(ballot.followers, &granted);
        if result == ElectionResult::Elected {
            self.replicate(i);
        }
        result
    }

    fn ids(&self, i: usize) -> Vec<(usize, u64)> {
        self.nodes[i].log().entries().iter().map(|e| (e.index, e.term)).collect()
    }

    fn submit(&mut self, l: usize, message: KVMessage) -> Option<String> {
        let at = self.nodes[l].client(ClientRequest { message }).unwrap();
        self.rounds(l, 2);
        let results = self.nodes[l].take_applied_results();
        results.into_iter().find(|(k, _)| *k == at).map(|(_, v)| v).unwrap()
    }

    /// Three members, A leading, every change committed one at a time.
    fn three_nodes() -> Cluster {
        let mut c = Cluster::new();
        c.nodes[0].bootstrap();
        c.nodes[0].commit();
        assert_eq!(c.elect(0), ElectionResult::Elected);
        c.rounds(0, 2);
        c.nodes[0].member_add(IDS[1]);
        c.rounds(0, 3);
        c.nodes[0].member_add(IDS[2]);
        c.rounds(0, 3);
        c
    }

    fn leaders_in_term(&self, term: u64) -> usize {
        self.nodes.iter().filter(|n| n.is_leader() && n.current_term() == term).count()
    }
}

#[test]
fn three_node_join_and_replicate() {
    let mut c = Cluster::three_nodes();
    for i in 0..3 {
        for id in IDS {
            assert!(c.nodes[i].servers().contains(id));
        }
    }
    assert_eq!(c.submit(0, KVMessage::Put("x".to_string(), "1".to_string())), None);
    assert_eq!(c.submit(0, KVMessage::Get("x".to_string())), Some("1".to_string()));
    c.rounds(0, 1);
    assert_eq!(c.ids(1), c.ids(0));
    assert_eq!(c.ids(2), c.ids(0));
    for i in 1..3 {
        assert_eq!(c.nodes[i].commit_index(), c.nodes[0].commit_index());
        assert_eq!(c.nodes[i].last_applied_index(), c.nodes[0].commit_index());
        assert_eq!(c.nodes[i].leader_id_for_client_redirection(), Some(IDS[0]));
    }
}

#[test]
fn leader_failure_elects_a_new_leader() {
    let mut c = Cluster::three_nodes();
    c.submit(0, KVMessage::Put("x".to_string(), "1".to_string()));
    c.up[0] = false;
    let old_term = c.nodes[0].current_term();
    assert_eq!(c.elect(1), ElectionResult::Elected);
    assert_eq!(c.nodes[1].role(), Role::Leader);
    let term = c.nodes[1].current_term();
    assert!(term > old_term);
    assert_eq!(c.leaders_in_term(term), 1);
    assert_eq!(c.submit(1, KVMessage::Put("y".to_string(), "2".to_string())), None);
    assert_eq!(c.submit(1, KVMessage::Get("x".to_string())), Some("1".to_string()));
    assert_eq!(c.ids(2), c.ids(1));
}

#[test]
fn lone_candidate_fails_quorum() {
    let mut c = Cluster::three_nodes();
    c.up = vec![true, false, false];
    let term = c.nodes[0].current_term();
    c.nodes[0].append(yari::rpc::AppendRequest {
        term: term + 1,
        leader_id: IDS[1].to_string(),
        previous_log_index: None,
        previous_log_term: None,
        entries: None,
        leader_commit_index: 0,
    });
    assert!(!c.nodes[0].is_leader());
    assert_eq!(c.elect(0), ElectionResult::FailedQuorum);
    assert_eq!(c.nodes[0].role(), Role::Candidate);
}

#[test]
fn membership_contraction_removes_a_member() {
    let mut c = Cluster::three_nodes();
    c.nodes[0].member_remove(IDS[2]);
    c.rounds(0, 4);
    assert!(!c.nodes[0].servers().contains(IDS[2]));
    assert!(!c.nodes[1].servers().contains(IDS[2]));
    assert_eq!(c.nodes[0].followers().as_ref().unwrap().len(), 1);
    assert_eq!(c.submit(0, KVMessage::Put("z".to_string(), "3".to_string())), None);
}

#[test]
fn removed_member_is_ineligible() {
    let mut c = Cluster::three_nodes();
    c.nodes[0].member_remove(IDS[2]);
    c.rounds(0, 4);
    // the removed node last saw the change that drops it
    c.nodes[2].commit();
    assert!(!c.nodes[2].servers().contains(IDS[2]));
    assert_eq!(c.elect(2), ElectionResult::Ineligible);
}

#[test]
fn stale_leader_steps_down_on_reply() {
    let mut c = Cluster::three_nodes();
    c.up[0] = false;
    assert_eq!(c.elect(1), ElectionResult::Elected);
    c.up[0] = true;
    c.replicate(0);
    assert!(!c.nodes[0].is_leader());
    c.replicate(1);
    assert_eq!(c.ids(0), c.ids(1));
}
