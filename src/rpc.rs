use vstd::prelude::*;

use crate::log::LogEntry;
use crate::{Index, Term};

verus! {

/// The reply to an AppendEntries call.
#[derive(Debug, Clone, Copy, PartialEq, Eq, Structural)]
pub struct AppendResponse {
    pub term: Term,
    pub success: bool,
}

/// An AppendEntries call: a batch of entries (or a heartbeat) from a leader.
#[derive(Debug)]
pub struct AppendRequest<M> {
    pub term: Term,
    pub leader_id: String,
    pub previous_log_index: Option<Index>,
    pub previous_log_term: Option<Term>,
    pub entries: Option<Vec<LogEntry<M>>>,
    pub leader_commit_index: Index,
}

impl<M> AppendRequest<M> {
    /// The entries that the request carries, none for a heartbeat.
    pub open spec fn batch(&self) -> Seq<LogEntry<M>> {
        match self.entries {
            Some(v) => v@,
            None => Seq::empty(),
        }
    }
}

/// The reply to a RequestVote call.
#[derive(Debug, Clone, Copy, PartialEq, Eq, Structural)]
pub struct VoteResponse {
    pub term: Term,
    pub vote_granted: bool,
}

/// A RequestVote call from a candidate.
#[derive(Debug, Clone)]
pub struct VoteRequest {
    pub term: Term,
    pub candidate_id: String,
    pub last_log_index: Option<Index>,
    pub last_log_term: Option<Term>,
}

/// A command submitted by a client.
#[derive(Debug, Clone)]
pub struct ClientRequest<M> {
    pub message: M,
}

/// The percent-encoding of a text: every byte but ASCII letters, digits and
/// `-`, `_`, `.`, `~` written as `%XX`.
pub uninterp spec fn percent_encoded(s: Seq<char>) -> Seq<char>;

/// Relies on `urlencoding::encode`: the percent-encoding of the text, empty
/// for an empty text.
#[verifier::external_body]
fn percent_encode(s: &str) -> (r: String)
    ensures
        r@ == percent_encoded(s@),
        s@.len() == 0 ==> r@.len() == 0,
{
    urlencoding::encode(s).into_owned()
}

/// The path of the membership resource for an already encoded identifier.
pub fn member_path_from_encoded(encoded: &str) -> (r: String)
    ensures
        r@ == "/servers/"@ + encoded@,
{
    let mut path = String::from_str("/servers/");
    path.append(encoded);
    path
}

/// The path under which a member is added (PUT) or removed (DELETE).
pub fn member_path(id: &str) -> (r: String)
    ensures
        r@ == "/servers/"@ + percent_encoded(id@),
{
    let encoded = percent_encode(id);
    member_path_from_encoded(encoded.as_str())
}

/// What a client receives once its command has been applied.
#[derive(Debug, Clone, Default)]
pub struct ClientResponse<R> {
    pub result: R,
}

} // verus!
