//! The outbound side of a node: how the consensus module reaches its peers.
use crate::messages::{
    AppendEntries, AppendEntriesReply, AppendEntriesView, RequestVote, RequestVoteReply,
};
use vstd::prelude::*;

verus! {

/// Why a call to a peer produced no reply.
#[derive(Debug, Clone, Copy, PartialEq, Eq, Structural)]
pub enum RequestError {
    Generic,
}

/// The transport through which a node calls its peers. Nothing is assumed of
/// what a peer answers: each call only promises that its reply is the one the
/// transport gave to that request for that peer, so that the consensus module
/// can record its calls faithfully. The two relations hold of every reply
/// unless an implementation says more; the library's proofs take them as
/// unknown relations of the transport, so every call it records is one the
/// transport's own method vouched for.
pub trait Server {
    /// `reply` is what the transport gave back for the vote request `req` to `peer`.
    closed spec fn answered_vote(
        &self,
        peer: i32,
        req: RequestVote,
        reply: Result<RequestVoteReply, RequestError>,
    ) -> bool {
        true
    }

    /// `reply` is what the transport gave back for the append request `req` to `peer`.
    closed spec fn answered_append(
        &self,
        peer: i32,
        req: AppendEntriesView,
        reply: Result<AppendEntriesReply, RequestError>,
    ) -> bool {
        true
    }

    fn call_request_vote(&self, peer: i32, req: &RequestVote) -> (reply: Result<
        RequestVoteReply,
        RequestError,
    >)
        ensures
            self.answered_vote(peer, *req, reply),
    ;

    fn call_append_entries(&self, peer: i32, req: &AppendEntries) -> (reply: Result<
        AppendEntriesReply,
        RequestError,
    >)
        ensures
            self.answered_append(peer, req@, reply),
    ;
}

} // verus!
