use vstd::prelude::*;

use crate::config::{heartbeat_millis, Config};
use crate::followers::{
    count_holding, count_true, follower_ids, lemma_quorum_is_strict_majority, quorum_size, FollowerState, Followers,
};
use crate::log::{accepts, append_outcome, copied, last_index_of, last_term_of, Log, LogEntry};
use crate::rpc::{AppendRequest, AppendResponse, ClientRequest, VoteRequest, VoteResponse};
use crate::servers::{visited_members, ConfigChangeView, RaftMessage, Servers};
use crate::state_machine::StateMachine;
use crate::{Index, Term, TermIndex};

verus! {

/// How an election attempt ended.
#[derive(Debug, PartialEq, Eq, Structural, Clone, Copy)]
pub enum ElectionResult {
    Elected,
    FailedQuorum,
    Ineligible,
}

/// The part a node plays; `Solitary` is the leader of a one-member cluster.
#[derive(Debug, PartialEq, Eq, Structural, Clone, Copy)]
pub enum Role {
    Solitary,
    Leader,
    Follower,
    Candidate,
}

/// What a leader makes of one AppendEntries reply.
#[derive(Debug, PartialEq, Eq, Structural, Clone, Copy)]
pub struct ReplicationStep {
    /// Send again to the same follower (its next index went one back).
    pub retry: bool,
    /// The follower reported a higher term.
    pub step_down: bool,
    /// The follower's match index changed.
    pub match_changed: bool,
}

/// What the election timer does next: a leader waits one heartbeat interval
/// and replicates; any other node waits an election timeout and stands.
#[derive(Debug, PartialEq, Eq, Structural, Clone, Copy)]
pub enum TimerAction {
    Heartbeat(u64),
    ElectionTimeout(u64),
}

/// What a candidate needs to ask for votes: its future followers and the request.
pub struct Ballot {
    pub followers: Followers,
    pub request: VoteRequest,
}

/// The text of an optional identifier.
pub open spec fn opt_str(o: Option<String>) -> Option<Seq<char>> {
    match o {
        Some(s) => Some(s@),
        None => None,
    }
}

/// `a >= b` on optional values, where none is below every value.
pub open spec fn opt_ge<T: Integer>(a: Option<T>, b: Option<T>) -> bool {
    match b {
        None => true,
        Some(y) => match a {
            None => false,
            Some(x) => x as int >= y as int,
        },
    }
}

/// The vote a node owes a request: the term is not behind, the node holds
/// no vote or holds it for this candidate already, and the candidate's log is
/// at least as long and at least as recent.
pub open spec fn grants<M>(o: NodeView<M>, request: VoteRequest) -> bool {
    &&& request.term >= o.current_term
    &&& (o.voted_for is None || o.voted_for == Some(request.candidate_id@))
    &&& opt_ge(request.last_log_index, last_index_of(o.log))
    &&& opt_ge(request.last_log_term, last_term_of(o.log))
}

/// One RequestVote call, from state `o` to state `f` with reply `r`.
pub open spec fn vote_step<M>(o: NodeView<M>, request: VoteRequest, f: NodeView<M>, r: VoteResponse) -> bool {
    let newer = request.term > o.current_term;
    &&& r.term == o.current_term
    &&& r.vote_granted == grants(o, request)
    &&& f.current_term == if newer { request.term } else { o.current_term }
    &&& f.voted_for == if r.vote_granted {
        Some(request.candidate_id@)
    } else if newer {
        None
    } else {
        o.voted_for
    }
    &&& f.followers is Some == (o.followers is Some && !newer)
}

/// A node gives its vote to one candidate per term: of two RequestVote calls
/// in a row that are both granted and carry the same term, the second goes to
/// the candidate of the first.
pub proof fn lemma_one_vote_per_term<M>(
    s0: NodeView<M>,
    q1: VoteRequest,
    s1: NodeView<M>,
    r1: VoteResponse,
    q2: VoteRequest,
    s2: NodeView<M>,
    r2: VoteResponse,
)
    requires
        vote_step(s0, q1, s1, r1),
        vote_step(s1, q2, s2, r2),
        r1.vote_granted,
        r2.vote_granted,
        q2.term == q1.term,
    ensures
        q2.candidate_id@ == q1.candidate_id@,
        s2.voted_for == Some(q1.candidate_id@),
{
}

/// The abstract state of a node.
pub struct NodeView<M> {
    pub id: Seq<char>,
    pub log: Seq<LogEntry<RaftMessage<M>>>,
    pub current_term: Term,
    pub voted_for: Option<Seq<char>>,
    pub commit_index: Index,
    pub last_applied_index: Index,
    pub immediate_commit_index: Index,
    pub followers: Option<Seq<FollowerState>>,
    pub members: Set<Seq<char>>,
    pub pending: Option<ConfigChangeView>,
    pub redirect: Option<Seq<char>>,
    pub posted: Seq<TermIndex>,
    pub config: Config,
    pub applied_commands: Seq<M>,
}

/// The membership after visiting the entries at indices `from + 1 ..= to`.
pub open spec fn members_after<M>(
    members: Set<Seq<char>>,
    log: Seq<LogEntry<RaftMessage<M>>>,
    from: int,
    to: int,
) -> Set<Seq<char>>
    decreases to - from,
{
    if to <= from {
        members
    } else {
        match log[to - 1].message {
            RaftMessage::ServerConfigChange(c) => visited_members(c@),
            _ => members_after(members, log, from, to - 1),
        }
    }
}

/// The pending follow-up change after applying the entries at `from + 1 ..= to`.
pub open spec fn pending_after<M>(
    pending: Option<ConfigChangeView>,
    log: Seq<LogEntry<RaftMessage<M>>>,
    from: int,
    to: int,
) -> Option<ConfigChangeView>
    decreases to - from,
{
    if to <= from {
        pending
    } else {
        match log[to - 1].message {
            RaftMessage::ServerConfigChange(c) => match c@.new {
                Some(n) => Some(ConfigChangeView { current: n, new: None }),
                None => None,
            },
            _ => pending_after(pending, log, from, to - 1),
        }
    }
}

/// The identities of the application commands at indices `from + 1 ..= to`.
pub open spec fn commands_in<M>(log: Seq<LogEntry<RaftMessage<M>>>, from: int, to: int) -> Seq<TermIndex>
    decreases to - from,
{
    if to <= from {
        Seq::empty()
    } else {
        commands_in(log, from, to - 1) + match log[to - 1].message {
            RaftMessage::StateMachineMessage(_) => seq![TermIndex(log[to - 1].term, to as Index)],
            _ => Seq::empty(),
        }
    }
}

/// The application commands at indices `from + 1 ..= to`, in index order.
pub open spec fn command_messages<M>(log: Seq<LogEntry<RaftMessage<M>>>, from: int, to: int) -> Seq<M>
    decreases to - from,
{
    if to <= from {
        Seq::empty()
    } else {
        command_messages(log, from, to - 1) + match log[to - 1].message {
            RaftMessage::StateMachineMessage(m) => seq![m],
            _ => Seq::empty(),
        }
    }
}

/// `e` is the stabilising membership change (one that proposes nothing new)
/// at the given index and term.
pub open spec fn stabilising<M>(e: LogEntry<RaftMessage<M>>, index: nat, term: Term) -> bool {
    &&& e.index == index
    &&& e.term == term
    &&& e.message matches RaftMessage::ServerConfigChange(c) && c@.new is None
}

/// A majority of the cluster, the leader included, holds the entry at `n`.
pub open spec fn quorum_holds(f: Seq<FollowerState>, n: Index) -> bool {
    count_holding(f, n) >= quorum_size(f.len(), true)
}

/// The index may be committed by the leader: past the commit index, in the
/// log, written in the current term, and held by a majority.
pub open spec fn committable<M>(v: NodeView<M>, n: int) -> bool {
    &&& v.followers is Some
    &&& v.commit_index < n <= v.log.len()
    &&& v.log[n - 1].term == v.current_term
    &&& quorum_holds(v.followers.unwrap(), n as Index)
}

pub open spec fn max_int(a: int, b: int) -> int {
    if a >= b {
        a
    } else {
        b
    }
}

pub open spec fn min_int(a: int, b: int) -> int {
    if a <= b {
        a
    } else {
        b
    }
}

/// The state of one node of the cluster.
pub struct RaftState<SM: StateMachine> {
    id: String,
    log: Log<RaftMessage<SM::MessageType>>,
    current_term: Term,
    voted_for: Option<String>,
    state_machine: SM,
    commit_index: Index,
    last_applied_index: Index,
    follower_state: Option<Followers>,
    config: Config,
    servers: Servers,
    immediate_commit_index: Index,
    leader_id_for_client_redirection: Option<String>,
    applied_results: Vec<(TermIndex, SM::ApplyResult)>,
}

impl<SM: StateMachine> View for RaftState<SM> {
    type V = NodeView<SM::MessageType>;

    closed spec fn view(&self) -> NodeView<SM::MessageType> {
        NodeView {
            id: self.id@,
            log: self.log@,
            current_term: self.current_term,
            voted_for: opt_str(self.voted_for),
            commit_index: self.commit_index,
            last_applied_index: self.last_applied_index,
            immediate_commit_index: self.immediate_commit_index,
            followers: match self.follower_state {
                Some(f) => Some(f@),
                None => None,
            },
            members: self.servers@,
            pending: match self.servers.pending() {
                Some(c) => Some(c@),
                None => None,
            },
            redirect: opt_str(self.leader_id_for_client_redirection),
            posted: self.applied_results@.map_values(|p: (TermIndex, SM::ApplyResult)| p.0),
            config: self.config,
            applied_commands: self.state_machine.applied(),
        }
    }
}

impl<SM: StateMachine> RaftState<SM> {
    /// The log, the membership and the leader's bookkeeping are well formed.
    pub closed spec fn wf(&self) -> bool {
        &&& self.log.wf()
        &&& self.servers.wf()
        &&& self.follower_state matches Some(f) ==> f.wf()
        &&& self.servers.pending() matches Some(c) ==> c@.new is None
    }

    /// The node plays candidate: it has voted for itself.
    pub open spec fn candidate_view(v: NodeView<SM::MessageType>) -> bool {
        v.voted_for == Some(v.id)
    }

    /// A fresh node: empty log, term 0, no vote, no members.
    pub fn new(id: String, config: Config, state_machine: SM) -> (r: Self)
        ensures
            r.wf(),
            r@.id == id@,
            r@.log == Seq::<LogEntry<RaftMessage<SM::MessageType>>>::empty(),
            r@.current_term == 0,
            r@.voted_for is None,
            r@.commit_index == 0 && r@.last_applied_index == 0 && r@.immediate_commit_index == 0,
            r@.followers is None,
            r@.members == Set::<Seq<char>>::empty(),
            r@.pending is None,
            r@.redirect is None,
            r@.posted == Seq::<TermIndex>::empty(),
            r@.applied_commands == state_machine.applied(),
    {
        let r = RaftState {
            id,
            log: Log::new(),
            current_term: 0,
            voted_for: None,
            state_machine,
            commit_index: 0,
            last_applied_index: 0,
            follower_state: None,
            config,
            servers: Servers::new(),
            immediate_commit_index: 0,
            leader_id_for_client_redirection: None,
            applied_results: Vec::new(),
        };
        assert(r@.posted =~= Seq::<TermIndex>::empty());
        r
    }

    /// A node resumed from its persistent part; the volatile part starts afresh.
    pub fn restore(
        id: String,
        config: Config,
        state_machine: SM,
        current_term: Term,
        voted_for: Option<String>,
        log: Log<RaftMessage<SM::MessageType>>,
    ) -> (r: Self)
        requires
            log.wf(),
        ensures
            r.wf(),
            r@.id == id@,
            r@.log == log@,
            r@.current_term == current_term,
            r@.voted_for == opt_str(voted_for),
            r@.commit_index == 0 && r@.last_applied_index == 0 && r@.immediate_commit_index == 0,
            r@.followers is None,
            r@.members == Set::<Seq<char>>::empty(),
            r@.redirect is None,
            r@.posted == Seq::<TermIndex>::empty(),
            r@.applied_commands == state_machine.applied(),
    {
        let r = RaftState {
            id,
            log,
            current_term,
            voted_for,
            state_machine,
            commit_index: 0,
            last_applied_index: 0,
            follower_state: None,
            config,
            servers: Servers::new(),
            immediate_commit_index: 0,
            leader_id_for_client_redirection: None,
            applied_results: Vec::new(),
        };
        assert(r@.posted =~= Seq::<TermIndex>::empty());
        r
    }

    pub fn id(&self) -> (r: &str)
        ensures
            r@ == self@.id,
    {
        self.id.as_str()
    }

    pub fn current_term(&self) -> (r: Term)
        ensures
            r == self@.current_term,
    {
        self.current_term
    }

    pub fn voted_for(&self) -> (r: Option<&str>)
        ensures
            r matches Some(s) ==> self@.voted_for == Some(s@),
            r is None ==> self@.voted_for is None,
    {
        match &self.voted_for {
            Some(s) => Some(s.as_str()),
            None => None,
        }
    }

    pub fn commit_index(&self) -> (r: Index)
        ensures
            r == self@.commit_index,
    {
        self.commit_index
    }

    pub fn last_applied_index(&self) -> (r: Index)
        ensures
            r == self@.last_applied_index,
    {
        self.last_applied_index
    }

    pub fn log(&self) -> (r: &Log<RaftMessage<SM::MessageType>>)
        requires
            self.wf(),
        ensures
            r@ == self@.log,
            r.wf(),
    {
        &self.log
    }

    pub fn servers(&self) -> (r: &Servers)
        requires
            self.wf(),
        ensures
            r@ == self@.members,
            r.wf(),
    {
        &self.servers
    }

    /// The leader's bookkeeping, none unless leading.
    pub fn followers(&self) -> (r: &Option<Followers>)
        ensures
            r matches Some(f) ==> self@.followers == Some(f@),
            r is None ==> self@.followers is None,
    {
        &self.follower_state
    }

    pub fn config(&self) -> (r: Config)
        ensures
            r == self@.config,
    {
        self.config
    }

    pub fn state_machine(&self) -> (r: &SM) {
        &self.state_machine
    }

    pub fn leader_id_for_client_redirection(&self) -> (r: Option<&str>)
        ensures
            r matches Some(s) ==> self@.redirect == Some(s@),
            r is None ==> self@.redirect is None,
    {
        match &self.leader_id_for_client_redirection {
            Some(s) => Some(s.as_str()),
            None => None,
        }
    }

    pub fn set_leader_id_for_client_redirection(&mut self, id: Option<String>)
        ensures
            final(self)@ == (NodeView { redirect: opt_str(id), ..old(self)@ }),
            old(self).wf() ==> final(self).wf(),
    {
        self.leader_id_for_client_redirection = id;
    }

    /// Hands out the apply results that waiting clients should receive.
    pub fn take_applied_results(&mut self) -> (r: Vec<(TermIndex, SM::ApplyResult)>)
        ensures
            r@.map_values(|p: (TermIndex, SM::ApplyResult)| p.0) == old(self)@.posted,
            final(self)@ == (NodeView { posted: Seq::<TermIndex>::empty(), ..old(self)@ }),
            old(self).wf() ==> final(self).wf(),
    {
        let mut r: Vec<(TermIndex, SM::ApplyResult)> = Vec::new();
        core::mem::swap(&mut r, &mut self.applied_results);
        assert(self@.posted =~= Seq::<TermIndex>::empty());
        r
    }

    pub fn is_leader(&self) -> (r: bool)
        ensures
            r == self@.followers is Some,
    {
        self.follower_state.is_some()
    }

    pub fn is_candidate(&self) -> (r: bool)
        ensures
            r == Self::candidate_view(self@),
    {
        match &self.voted_for {
            Some(v) => *v == self.id,
            None => false,
        }
    }

    /// Leading a cluster with no other member.
    pub fn is_solitary(&self) -> (r: bool)
        ensures
            r == (self@.followers matches Some(f) && f.len() == 0),
    {
        match &self.follower_state {
            Some(f) => f.is_empty(),
            None => false,
        }
    }

    pub fn role(&self) -> (r: Role)
        ensures
            r == if self@.followers matches Some(f) && f.len() == 0 {
                Role::Solitary
            } else if self@.followers is Some {
                Role::Leader
            } else if Self::candidate_view(self@) {
                Role::Candidate
            } else {
                Role::Follower
            },
    {
        if self.is_solitary() {
            Role::Solitary
        } else if self.is_leader() {
            Role::Leader
        } else if self.is_candidate() {
            Role::Candidate
        } else {
            Role::Follower
        }
    }

    /// Gives up leadership and the redirection target; a candidate also
    /// withdraws its vote for itself.
    fn become_follower(&mut self)
        requires
            old(self).wf(),
        ensures
            final(self).wf(),
            final(self)@ == (NodeView {
                followers: None,
                redirect: None,
                voted_for: if Self::candidate_view(old(self)@) {
                    None
                } else {
                    old(self)@.voted_for
                },
                ..old(self)@
            }),
    {
        let candidate = self.is_candidate();
        self.follower_state = None;
        self.leader_id_for_client_redirection = None;
        if candidate {
            self.voted_for = None;
        }
    }

    /// Appends a message to the log in the current term.
    pub fn client_append(&mut self, message: RaftMessage<SM::MessageType>) -> (r: TermIndex)
        requires
            old(self).wf(),
            old(self)@.log.len() + 1 < usize::MAX,
        ensures
            final(self).wf(),
            r == TermIndex(old(self)@.current_term, (old(self)@.log.len() + 1) as Index),
            final(self)@ == (NodeView {
                log: old(self)@.log.push(
                    LogEntry { index: (old(self)@.log.len() + 1) as Index, term: old(self)@.current_term, message },
                ),
                ..old(self)@
            }),
    {
        self.log.client_append(self.current_term, message)
    }

    /// Appends the change that adds `id` to the membership; while a follow-up
    /// change is still pending, changes one at a time: nothing is appended.
    pub fn member_add(&mut self, id: &str)
        requires
            old(self).wf(),
            old(self)@.log.len() + 1 < usize::MAX,
        ensures
            final(self).wf(),
            old(self)@.pending is Some ==> final(self)@ == old(self)@,
            old(self)@.pending is None ==> {
                &&& final(self)@.log.len() == old(self)@.log.len() + 1
                &&& old(self)@.log.is_prefix_of(final(self)@.log)
                &&& final(self)@.log.last().index == old(self)@.log.len() + 1
                &&& final(self)@.log.last().term == old(self)@.current_term
                &&& (final(self)@.log.last().message matches RaftMessage::ServerConfigChange(c) && c@.current
                    == old(self)@.members && c@.new == Some(old(self)@.members.insert(id@)))
                &&& final(self)@ == (NodeView { log: final(self)@.log, ..old(self)@ })
            },
    {
        if self.servers.has_pending() {
            return;
        }
        if let Some(message) = self.servers.member_add(id) {
            self.client_append(RaftMessage::ServerConfigChange(message));
            assert(old(self)@.log.is_prefix_of(self@.log));
        }
    }

    /// Appends the change that removes `id` from the membership; while a follow-up
    /// change is still pending, changes one at a time: nothing is appended.
    pub fn member_remove(&mut self, id: &str)
        requires
            old(self).wf(),
            old(self)@.log.len() + 1 < usize::MAX,
        ensures
            final(self).wf(),
            old(self)@.pending is Some ==> final(self)@ == old(self)@,
            old(self)@.pending is None ==> {
                &&& final(self)@.log.len() == old(self)@.log.len() + 1
                &&& old(self)@.log.is_prefix_of(final(self)@.log)
                &&& final(self)@.log.last().index == old(self)@.log.len() + 1
                &&& final(self)@.log.last().term == old(self)@.current_term
                &&& (final(self)@.log.last().message matches RaftMessage::ServerConfigChange(c) && c@.current
                    == old(self)@.members && c@.new == Some(old(self)@.members.remove(id@)))
                &&& final(self)@ == (NodeView { log: final(self)@.log, ..old(self)@ })
            },
    {
        if self.servers.has_pending() {
            return;
        }
        if let Some(message) = self.servers.member_remove(id) {
            self.client_append(RaftMessage::ServerConfigChange(message));
            assert(old(self)@.log.is_prefix_of(self@.log));
        }
    }

    /// Appends the change that makes this node the first member.
    pub fn bootstrap(&mut self)
        requires
            old(self).wf(),
            old(self)@.log.len() + 1 < usize::MAX,
        ensures
            final(self).wf(),
            final(self)@.log.len() == old(self)@.log.len() + 1,
            old(self)@.log.is_prefix_of(final(self)@.log),
            final(self)@.log.last().term == old(self)@.current_term,
            (final(self)@.log.last().message matches RaftMessage::ServerConfigChange(c) && c@.current
                == old(self)@.members && c@.new == Some(old(self)@.members.insert(old(self)@.id))),
            final(self)@ == (NodeView { log: final(self)@.log, ..old(self)@ }),
    {
        if let Some(message) = self.servers.member_add(self.id.as_str()) {
            self.client_append(RaftMessage::ServerConfigChange(message));
            assert(old(self)@.log.is_prefix_of(self@.log));
        }
    }

    /// A client command: a leader appends it and returns where it stands;
    /// any other node returns the leader to redirect to, if it knows one.
    pub fn client(&mut self, request: ClientRequest<SM::MessageType>) -> (r: Result<TermIndex, Option<String>>)
        requires
            old(self).wf(),
            old(self)@.log.len() + 1 < usize::MAX,
        ensures
            final(self).wf(),
            old(self)@.followers is Some ==> {
                &&& r == Ok::<TermIndex, Option<String>>(
                    TermIndex(old(self)@.current_term, (old(self)@.log.len() + 1) as Index),
                )
                &&& final(self)@ == (NodeView {
                    log: old(self)@.log.push(
                        LogEntry {
                            index: (old(self)@.log.len() + 1) as Index,
                            term: old(self)@.current_term,
                            message: RaftMessage::StateMachineMessage(request.message),
                        },
                    ),
                    ..old(self)@
                })
            },
            old(self)@.followers is None ==> {
                &&& r matches Err(l) && opt_str(l) == old(self)@.redirect
                &&& final(self)@ == old(self)@
            },
    {
        if self.is_leader() {
            Ok(self.client_append(RaftMessage::StateMachineMessage(request.message)))
        } else {
            let leader = match &self.leader_id_for_client_redirection {
                Some(l) => Some(l.clone()),
                None => None,
            };
            Err(leader)
        }
    }

    /// Visits the entries not yet visited, applies the committed entries not
    /// yet applied, each command once and in index order (keeping its result
    /// for the waiting client), and, when leading, refreshes the followers from
    /// the membership and appends the follow-up membership change, if any.
    pub fn commit(&mut self)
        requires
            old(self).wf(),
        ensures
            final(self).wf(),
            ({
                let o = old(self)@;
                let f = final(self)@;
                let applied = max_int(o.last_applied_index as int, min_int(o.commit_index as int, o.log.len() as int));
                let pending = pending_after(o.pending, o.log, o.last_applied_index as int, applied);
                let members = members_after(o.members, o.log, o.immediate_commit_index as int, o.log.len() as int);
                let room = o.log.len() + 2 < usize::MAX;
                &&& f.id == o.id && f.current_term == o.current_term && f.voted_for == o.voted_for
                &&& f.commit_index == o.commit_index && f.redirect == o.redirect
                &&& f.last_applied_index == applied
                &&& f.immediate_commit_index == max_int(o.immediate_commit_index as int, o.log.len() as int)
                &&& f.members == members
                &&& f.followers is Some == o.followers is Some
                &&& (o.followers matches Some(f0) ==> f.followers matches Some(f1) && follower_ids(f1)
                    == follower_ids(f0).intersect(members).union(members.remove(o.id)))
                &&& f.posted == o.posted + commands_in(o.log, o.last_applied_index as int, applied)
                &&& f.applied_commands == o.applied_commands + command_messages(
                    o.log,
                    o.last_applied_index as int,
                    applied,
                )
                &&& if o.followers is Some && pending is Some && room {
                    &&& f.log.len() == o.log.len() + 1
                    &&& f.log.drop_last() == o.log
                    &&& f.log.last().index == o.log.len() + 1
                    &&& f.log.last().term == o.current_term
                    &&& f.log.last().message matches RaftMessage::ServerConfigChange(c) && Some(c@) == pending
                        && c@.new is None
                    &&& f.pending is None
                } else {
                    &&& f.log == o.log
                    &&& f.pending == pending
                }
            }),
    {
        let ghost o = self@;
        let len = self.log.len();
        if self.immediate_commit_index < len {
            let mut k: usize = self.immediate_commit_index + 1;
            while k <= len
                invariant
                    o.immediate_commit_index < k <= len + 1,
                    len == self.log@.len(),
                    self.wf(),
                    self.immediate_commit_index == k - 1,
                    self@.members == members_after(o.members, o.log, o.immediate_commit_index as int, k - 1),
                    self@ == (NodeView { members: self@.members, immediate_commit_index: self@.immediate_commit_index, ..o }),
                decreases len + 1 - k,
            {
                match self.log.get(k) {
                    Some(entry) => match &entry.message {
                        RaftMessage::ServerConfigChange(m) => self.servers.visit(m),
                        RaftMessage::StateMachineMessage(m) => self.state_machine.visit(m),
                        RaftMessage::Blank => {},
                    },
                    None => {},
                }
                self.immediate_commit_index = k;
                k = k + 1;
            }
        }
        let ghost mid = self@;
        while self.commit_index > self.last_applied_index && self.last_applied_index < self.log.len()
            invariant
                self.wf(),
                o.last_applied_index <= self.last_applied_index,
                self.last_applied_index <= max_int(o.last_applied_index as int, min_int(o.commit_index as int, o.log.len() as int)),
                self@.pending == pending_after(o.pending, o.log, o.last_applied_index as int, self.last_applied_index as int),
                self@.posted == o.posted + commands_in(o.log, o.last_applied_index as int, self.last_applied_index as int),
                self@.applied_commands == mid.applied_commands + command_messages(
                    o.log,
                    o.last_applied_index as int,
                    self.last_applied_index as int,
                ),
                self@ == (NodeView {
                    pending: self@.pending,
                    posted: self@.posted,
                    last_applied_index: self@.last_applied_index,
                    applied_commands: self@.applied_commands,
                    ..mid
                }),
                mid.log == o.log,
                mid.followers == o.followers,
                mid.commit_index == o.commit_index,
            decreases self.log@.len() - self.last_applied_index,
        {
            let next = self.last_applied_index + 1;
            assert(next <= o.log.len());
            match self.log.get(next) {
                Some(entry) => {
                    match &entry.message {
                        RaftMessage::ServerConfigChange(m) => self.servers.apply(m),
                        RaftMessage::StateMachineMessage(m) => {
                            let result = self.state_machine.apply(m);
                            let ghost results_before = self.applied_results@;
                            self.applied_results.push((TermIndex(entry.term, next), result));
                            assert(self.applied_results@.map_values(|p: (TermIndex, SM::ApplyResult)| p.0)
                                =~= results_before.map_values(|p: (TermIndex, SM::ApplyResult)| p.0).push(
                                TermIndex(entry.term, next),
                            ));
                        },
                        RaftMessage::Blank => {},
                    }
                },
                None => {},
            }
            self.last_applied_index = next;
            assert(self@.posted =~= o.posted + commands_in(o.log, o.last_applied_index as int, next as int));
            assert(self@.applied_commands =~= mid.applied_commands + command_messages(
                o.log,
                o.last_applied_index as int,
                next as int,
            ));
        }
        if self.follower_state.is_some() {
            let next_index = self.log.next_index();
            match self.follower_state.take() {
                Some(mut followers) => {
                    followers.update_from_servers(&self.servers, self.id.as_str(), next_index);
                    self.follower_state = Some(followers);
                },
                None => {},
            }
            if self.log.len() < usize::MAX - 2 {
                if let Some(message) = self.servers.take_new_config() {
                    self.log.client_append(self.current_term, RaftMessage::ServerConfigChange(message));
                    assert(self@.log.drop_last() =~= o.log);
                }
            }
        }
    }

    /// The common rules after every call: a higher term makes the node adopt
    /// it, withdraw its vote and stop leading; then entries are committed.
    pub fn apply_rules(&mut self, request_term: Term)
        requires
            old(self).wf(),
        ensures
            final(self).wf(),
            final(self)@.current_term == if request_term > old(self)@.current_term {
                request_term
            } else {
                old(self)@.current_term
            },
            final(self)@.voted_for == if request_term > old(self)@.current_term {
                None
            } else {
                old(self)@.voted_for
            },
            final(self)@.followers is Some == (old(self)@.followers is Some && request_term <= old(self)@.current_term),
            final(self)@.id == old(self)@.id,
            final(self)@.redirect == old(self)@.redirect,
            final(self)@.commit_index == old(self)@.commit_index,
            final(self)@.last_applied_index == max_int(
                old(self)@.last_applied_index as int,
                min_int(old(self)@.commit_index as int, old(self)@.log.len() as int),
            ),
            old(self)@.log.is_prefix_of(final(self)@.log),
            final(self)@.log.len() <= old(self)@.log.len() + 1,
            final(self)@.followers is None ==> final(self)@.log == old(self)@.log,
            final(self)@.log.len() == old(self)@.log.len() + 1 ==> final(self)@.log.drop_last() == old(self)@.log
                && stabilising(final(self)@.log.last(), old(self)@.log.len() + 1, final(self)@.current_term),
    {
        if request_term > self.current_term {
            self.voted_for = None;
            self.follower_state = None;
            self.current_term = request_term;
        }
        self.commit();
        assert(old(self)@.log.is_prefix_of(self@.log)) by {
            if self@.log.len() > old(self)@.log.len() {
                assert(self@.log.drop_last() == old(self)@.log);
                assert(old(self)@.log =~= self@.log.take(old(self)@.log.len() as int));
            } else {
                assert(self@.log == old(self)@.log);
            }
        }
    }

    /// The AppendEntries handler.
    pub fn append(&mut self, request: AppendRequest<RaftMessage<SM::MessageType>>) -> (r: AppendResponse)
        requires
            old(self).wf(),
        ensures
            final(self).wf(),
            ({
                let o = old(self)@;
                let f = final(self)@;
                let newer = request.term > o.current_term;
                let fresh = request.term >= o.current_term;
                let log1 = if fresh {
                    append_outcome(o.log, request.previous_log_term, request.previous_log_index, request.batch())
                } else {
                    o.log
                };
                let commit1 = if request.leader_commit_index > o.commit_index {
                    min_int(request.leader_commit_index as int, log1.len() as int)
                } else {
                    o.commit_index as int
                };
                &&& r.term == o.current_term
                &&& r.success == (fresh && accepts(
                    o.log,
                    request.previous_log_term,
                    request.previous_log_index,
                    request.batch(),
                ))
                &&& f.current_term == if newer { request.term } else { o.current_term }
                &&& f.redirect == Some(request.leader_id@)
                &&& f.voted_for == if newer || Self::candidate_view(o) { None } else { o.voted_for }
                &&& f.followers is Some == (o.followers is Some && !newer && !Self::candidate_view(o))
                &&& f.commit_index == commit1
                &&& log1.is_prefix_of(f.log) && f.log.len() <= log1.len() + 1
                &&& (f.followers is None ==> f.log == log1)
                &&& (f.log.len() == log1.len() + 1 ==> f.log.drop_last() == log1 && stabilising(
                    f.log.last(),
                    log1.len() + 1,
                    f.current_term,
                ))
                &&& f.last_applied_index == max_int(o.last_applied_index as int, min_int(commit1, log1.len() as int))
                &&& f.last_applied_index >= o.last_applied_index
                &&& f.current_term >= o.current_term
                &&& (o.commit_index <= log1.len() ==> f.commit_index >= o.commit_index)
            }),
    {
        if self.is_candidate() {
            self.become_follower();
        }
        self.leader_id_for_client_redirection = Some(request.leader_id.clone());
        let leader_commit = request.leader_commit_index;
        let request_term = request.term;
        let success = if request.term >= self.current_term {
            self.log.append(request)
        } else {
            false
        };
        if leader_commit > self.commit_index {
            let last = match self.log.last_index() {
                Some(i) => i,
                None => 0,
            };
            self.commit_index = if leader_commit < last {
                leader_commit
            } else {
                last
            };
        }
        let current_term = self.current_term;
        self.apply_rules(request_term);
        AppendResponse { success, term: current_term }
    }

    /// The RequestVote handler: the vote goes to a candidate whose term is not
    /// behind, when the node holds no vote or holds it for that candidate, and
    /// whose log is at least as long and at least as recent as ours. A newer
    /// term is then adopted; a granted vote is kept in it.
    pub fn vote(&mut self, request: VoteRequest) -> (r: VoteResponse)
        requires
            old(self).wf(),
        ensures
            final(self).wf(),
            vote_step(old(self)@, request, final(self)@, r),
            final(self)@.current_term >= old(self)@.current_term,
            final(self)@.commit_index == old(self)@.commit_index,
            final(self)@.last_applied_index == max_int(
                old(self)@.last_applied_index as int,
                min_int(old(self)@.commit_index as int, old(self)@.log.len() as int),
            ),
            old(self)@.log.is_prefix_of(final(self)@.log),
            final(self)@.followers is None ==> final(self)@.log == old(self)@.log,
    {
        let current_term = self.current_term;
        let up_to_date = index_at_least(request.last_log_index, self.log.last_index())
            && term_at_least(request.last_log_term, self.log.last_term());
        let free = match &self.voted_for {
            None => true,
            Some(v) => *v == request.candidate_id,
        };
        let vote_granted = request.term >= self.current_term && free && up_to_date;
        if request.term > self.current_term {
            self.voted_for = None;
            self.follower_state = None;
            self.current_term = request.term;
        }
        if vote_granted {
            self.voted_for = Some(request.candidate_id.clone());
        }
        self.apply_rules(request.term);
        VoteResponse { term: current_term, vote_granted }
    }

    /// Moves the commit index to the highest index that a majority holds and
    /// that was written in the current term, when that is past it.
    pub fn update_commit_index(&mut self)
        requires
            old(self).wf(),
        ensures
            final(self).wf(),
            final(self)@ == (NodeView { commit_index: final(self)@.commit_index, ..old(self)@ }),
            final(self)@.commit_index >= old(self)@.commit_index,
            final(self)@.commit_index != old(self)@.commit_index ==> committable(old(self)@, final(self)@.commit_index as int),
            forall|n: int| committable(old(self)@, n) ==> n <= final(self)@.commit_index,
    {
        if let Some(last_index) = self.log.last_index_in_term(self.current_term) {
            if let Some(followers) = &self.follower_state {
                let mut n: usize = last_index;
                while n > self.commit_index
                    invariant
                        n <= last_index,
                        1 <= last_index <= self@.log.len(),
                        self.wf(),
                        self@ == old(self)@,
                        self.follower_state == Some(*followers),
                        forall|j: int| last_index <= j < self@.log.len() ==> #[trigger] self@.log[j].term != self@.current_term,
                        forall|m: int| n < m <= self@.log.len() ==> !committable(self@, m),
                    decreases n,
                {
                    let held = match self.log.get(n) {
                        Some(e) => e.term == self.current_term,
                        None => false,
                    };
                    if held && followers.quorum_has_item_at_index(n) {
                        self.commit_index = n;
                        return;
                    }
                    n = n - 1;
                }
            }
        }
    }

    /// Starts an election: a member moves to the next term and votes for
    /// itself; the ballot holds its future followers and the vote request.
    /// A node outside the membership gets none and stays as it is.
    pub fn prepare_election(&mut self) -> (r: Option<Ballot>)
        requires
            old(self).wf(),
            old(self)@.members.contains(old(self)@.id) ==> old(self)@.current_term < u64::MAX,
        ensures
            final(self).wf(),
            !old(self)@.members.contains(old(self)@.id) ==> r is None && final(self)@ == old(self)@,
            old(self)@.members.contains(old(self)@.id) ==> (r matches Some(b) && {
                &&& final(self)@ == (NodeView {
                    current_term: (old(self)@.current_term + 1) as Term,
                    voted_for: Some(old(self)@.id),
                    redirect: None,
                    ..old(self)@
                })
                &&& b.request.term == final(self)@.current_term
                &&& b.request.candidate_id@ == old(self)@.id
                &&& b.request.last_log_index == last_index_of(old(self)@.log)
                &&& b.request.last_log_term == last_term_of(old(self)@.log)
                &&& b.followers.wf()
                &&& b.followers.ids() == old(self)@.members.remove(old(self)@.id)
                &&& forall|i: int| 0 <= i < b.followers@.len() ==> (#[trigger] b.followers@[i]).next_index
                    == old(self)@.log.len() + 1 && b.followers@[i].match_index == 0
            }),
    {
        if self.servers.contains(self.id.as_str()) {
            self.current_term = self.current_term + 1;
            self.voted_for = Some(self.id.clone());
            self.leader_id_for_client_redirection = None;
            let followers = Followers::from_servers(&self.servers, self.id.as_str(), self.log.next_index());
            let request = VoteRequest {
                term: self.current_term,
                candidate_id: self.id.clone(),
                last_log_index: self.log.last_index(),
                last_log_term: self.log.last_term(),
            };
            Some(Ballot { followers, request })
        } else {
            None
        }
    }

    /// Ends an election with the answers of the followers (one per follower, in
    /// their order): with a majority the node leads and appends a blank entry.
    pub fn complete_election(&mut self, followers: Followers, granted: &Vec<bool>) -> (r: ElectionResult)
        requires
            old(self).wf(),
            followers.wf(),
            granted@.len() == followers@.len(),
            old(self)@.log.len() + 1 < usize::MAX,
        ensures
            final(self).wf(),
            count_true(granted@) >= quorum_size(followers@.len(), true) ==> {
                &&& r == ElectionResult::Elected
                &&& final(self)@ == (NodeView {
                    voted_for: None,
                    followers: Some(followers@),
                    log: old(self)@.log.push(
                        LogEntry {
                            index: (old(self)@.log.len() + 1) as Index,
                            term: old(self)@.current_term,
                            message: RaftMessage::Blank,
                        },
                    ),
                    ..old(self)@
                })
            },
            count_true(granted@) < quorum_size(followers@.len(), true) ==> r == ElectionResult::FailedQuorum
                && final(self)@ == old(self)@,
            (r == ElectionResult::Elected) == (2 * (count_true(granted@) + 1) > followers@.len() + 1),
    {
        proof {
            lemma_quorum_is_strict_majority(followers@.len(), count_true(granted@), true);
        }
        let needed = followers.others_needed_for_quorum(true);
        let votes = count_granted(granted);
        if votes >= needed {
            self.voted_for = None;
            self.follower_state = Some(followers);
            self.log.client_append(self.current_term, RaftMessage::Blank);
            ElectionResult::Elected
        } else {
            ElectionResult::FailedQuorum
        }
    }

    /// Records a follower's reply to AppendEntries. On success the follower's
    /// progress moves to the last entry sent (if any); on failure its next
    /// index goes one back (not below 1), its match index stays below the next
    /// index, and the call is retried unless the follower reported a higher term.
    pub fn record_append_response(
        &mut self,
        follower: usize,
        last_sent: Option<Index>,
        response: &AppendResponse,
    ) -> (r: ReplicationStep)
        requires
            old(self).wf(),
            old(self)@.followers matches Some(f) && follower < f.len(),
            last_sent matches Some(i) ==> i < usize::MAX,
        ensures
            final(self).wf(),
            ({
                let o = old(self)@;
                let f0 = o.followers.unwrap();
                let cur = f0[follower as int];
                let step_down = response.term > o.current_term;
                &&& r.step_down == step_down
                &&& r.retry == (!response.success && !step_down)
                &&& if response.success && !step_down && last_sent is Some {
                    let i = last_sent.unwrap();
                    &&& r.match_changed == (cur.match_index != i)
                    &&& final(self)@ == (NodeView {
                        followers: Some(
                            f0.update(
                                follower as int,
                                FollowerState { identifier: cur.identifier, next_index: (i + 1) as Index, match_index: i },
                            ),
                        ),
                        ..o
                    })
                } else if response.success {
                    !r.match_changed && final(self)@ == o
                } else {
                    let next: int = if cur.next_index >= 2 { cur.next_index - 1 } else { 1 };
                    let matched: int = if cur.match_index < next { cur.match_index as int } else { next - 1 };
                    &&& r.match_changed == (matched != cur.match_index)
                    &&& final(self)@ == (NodeView {
                        followers: Some(
                            f0.update(
                                follower as int,
                                FollowerState {
                                    identifier: cur.identifier,
                                    next_index: next as Index,
                                    match_index: matched as Index,
                                },
                            ),
                        ),
                        ..o
                    })
                }
            }),
    {
        let step_down = response.term > self.current_term;
        let mut followers = self.follower_state.take().unwrap();
        let cur_next = followers.get(follower).next_index;
        let cur_match = followers.get(follower).match_index;
        let r = if response.success {
            match last_sent {
                Some(i) if !step_down => {
                    followers.set_progress(follower, i + 1, i);
                    ReplicationStep { retry: false, step_down, match_changed: cur_match != i }
                },
                _ => ReplicationStep { retry: false, step_down, match_changed: false },
            }
        } else {
            let next = if cur_next >= 2 {
                cur_next - 1
            } else {
                1
            };
            let matched = if cur_match < next {
                cur_match
            } else {
                next - 1
            };
            followers.set_progress(follower, next, matched);
            ReplicationStep { retry: !step_down, step_down, match_changed: matched != cur_match }
        };
        self.follower_state = Some(followers);
        proof {
            if response.success && (step_down || last_sent is None) {
                assert(self@.followers.unwrap() =~= old(self)@.followers.unwrap());
            }
        }
        r
    }

    /// Ends a replication round: when progress changed (or the leader is alone)
    /// the commit index moves and entries are committed; a higher term seen or
    /// the node's absence from the membership ends its leadership.
    pub fn finish_replication_round(&mut self, any_change_in_match_indexes: bool, step_down: bool)
        requires
            old(self).wf(),
        ensures
            final(self).wf(),
            final(self)@.current_term == old(self)@.current_term,
            final(self)@.commit_index >= old(self)@.commit_index,
            final(self)@.last_applied_index >= old(self)@.last_applied_index,
            old(self)@.log.is_prefix_of(final(self)@.log),
            final(self)@.log.len() <= old(self)@.log.len() + 1,
            (step_down || !final(self)@.members.contains(final(self)@.id)) ==> final(self)@.followers is None
                && final(self)@.redirect is None,
            (old(self)@.followers is Some && !step_down && final(self)@.members.contains(final(self)@.id))
                ==> final(self)@.followers is Some && final(self)@.redirect == old(self)@.redirect,
            final(self)@.commit_index != old(self)@.commit_index ==> committable(old(self)@, final(self)@.commit_index as int),
            (old(self)@.followers is Some && (any_change_in_match_indexes || old(self)@.followers.unwrap().len() == 0))
                ==> forall|n: int| committable(old(self)@, n) ==> n <= final(self)@.commit_index,
            ({
                let o = old(self)@;
                let f = final(self)@;
                let run = o.followers is Some && (any_change_in_match_indexes || o.followers.unwrap().len() == 0);
                let applied = if run {
                    max_int(o.last_applied_index as int, min_int(f.commit_index as int, o.log.len() as int))
                } else {
                    o.last_applied_index as int
                };
                &&& f.last_applied_index == applied
                &&& f.applied_commands == o.applied_commands + command_messages(o.log, o.last_applied_index as int, applied)
                &&& f.posted == o.posted + commands_in(o.log, o.last_applied_index as int, applied)
                &&& (!run ==> f.commit_index == o.commit_index && f.log == o.log)
                &&& (f.log.len() == o.log.len() + 1 ==> {
                    &&& f.log.drop_last() == o.log
                    &&& stabilising(f.log.last(), o.log.len() + 1, o.current_term)
                    &&& f.log.last().message matches RaftMessage::ServerConfigChange(c) && Some(c@) == pending_after(
                        o.pending,
                        o.log,
                        o.last_applied_index as int,
                        applied,
                    )
                })
            }),
    {
        let alone = match &self.follower_state {
            Some(f) => f.is_empty(),
            None => false,
        };
        if self.follower_state.is_some() && (any_change_in_match_indexes || alone) {
            self.update_commit_index();
            self.commit();
            assert(old(self)@.log.is_prefix_of(self@.log)) by {
                if self@.log.len() > old(self)@.log.len() {
                    assert(old(self)@.log =~= self@.log.take(old(self)@.log.len() as int));
                }
            }
        }
        if step_down || !self.servers.contains(self.id.as_str()) {
            self.become_follower();
        }
    }

    /// The timer's next step, with its wait in milliseconds.
    pub fn timer_action(&self) -> (r: TimerAction)
        ensures
            self@.followers is Some ==> r == TimerAction::Heartbeat(heartbeat_millis(self@.config)),
            self@.followers is None ==> (r matches TimerAction::ElectionTimeout(t) && (self@.config.timeout.min
                < self@.config.timeout.max ==> self@.config.timeout.min <= t < self@.config.timeout.max) && (
            self@.config.timeout.min >= self@.config.timeout.max ==> t == self@.config.timeout.min)),
    {
        if self.is_leader() {
            TimerAction::Heartbeat(self.config.heartbeat_interval_millis())
        } else {
            TimerAction::ElectionTimeout(self.config.election_timeout_millis())
        }
    }

    /// A fresh election timeout in milliseconds, drawn from the configured window.
    pub fn generate_election_timeout(&self) -> (r: u64)
        ensures
            self@.config.timeout.min < self@.config.timeout.max ==> self@.config.timeout.min <= r
                < self@.config.timeout.max,
    {
        self.config.election_timeout_millis()
    }
}

impl<SM: StateMachine> RaftState<SM> where SM::MessageType: Clone {
    /// The AppendEntries request for a follower whose next index is `next_index`:
    /// the entries from there on (none when there are none), the entry before
    /// them, the current term and the commit index.
    pub fn append_request_for(&self, next_index: Index) -> (r: AppendRequest<RaftMessage<SM::MessageType>>)
        requires
            self.wf(),
        ensures
            r.term == self@.current_term,
            r.leader_id@ == self@.id,
            r.leader_commit_index == self@.commit_index,
            r.entries is Some == (1 <= next_index <= self@.log.len()),
            r.entries matches Some(v) ==> {
                &&& v@.len() == self@.log.len() - next_index + 1
                &&& forall|j: int| 0 <= j < v@.len() ==> copied(self@.log[next_index - 1 + j], #[trigger] v@[j])
            },
            r.previous_log_index == if 2 <= next_index <= self@.log.len() + 1 {
                Some((next_index - 1) as Index)
            } else {
                None::<Index>
            },
            r.previous_log_term == if 2 <= next_index <= self@.log.len() + 1 {
                Some(self@.log[next_index - 2].term)
            } else {
                None::<Term>
            },
    {
        let entries = self.log.entries_starting_at(next_index);
        let previous = self.log.previous_entry_to(next_index);
        let (previous_log_index, previous_log_term) = match previous {
            Some(e) => (Some(e.index), Some(e.term)),
            None => (None, None),
        };
        AppendRequest {
            term: self.current_term,
            leader_id: self.id.clone(),
            previous_log_index,
            previous_log_term,
            entries,
            leader_commit_index: self.commit_index,
        }
    }
}

/// `a >= b` on optional indices.
fn index_at_least(a: Option<Index>, b: Option<Index>) -> (r: bool)
    ensures
        r == opt_ge(a, b),
{
    match (a, b) {
        (_, None) => true,
        (None, Some(_)) => false,
        (Some(x), Some(y)) => x >= y,
    }
}

/// `a >= b` on optional terms.
fn term_at_least(a: Option<Term>, b: Option<Term>) -> (r: bool)
    ensures
        r == opt_ge(a, b),
{
    match (a, b) {
        (_, None) => true,
        (None, Some(_)) => false,
        (Some(x), Some(y)) => x >= y,
    }
}

/// How many answers are `true`.
fn count_granted(granted: &Vec<bool>) -> (r: usize)
    ensures
        r == count_true(granted@),
{
    let mut count: usize = 0;
    let mut k: usize = 0;
    while k < granted.len()
        invariant
            k <= granted@.len(),
            count == count_true(granted@.take(k as int)),
            count <= k,
        decreases granted@.len() - k,
    {
        assert(granted@.take(k + 1).drop_last() =~= granted@.take(k as int));
        if granted[k] {
            count = count + 1;
        }
        k = k + 1;
    }
    assert(granted@.take(k as int) =~= granted@);
    count
}

} // verus!
