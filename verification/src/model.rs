//! The mathematical model of a Raft node: its state as plain values, and each
//! step of the protocol as a function from state (and message or reply) to
//! the next state (and reply).
use crate::messages::{
    AppendEntriesReply, AppendEntriesView, LogEntryView, RequestVoteReply, RequestVote,
};
use crate::server::RequestError;
use vstd::prelude::*;

verus! {

/// The role a node plays. A candidate runs an election, a leader sends
/// heartbeats, a follower waits for a leader, and a dead node answers nothing.
#[derive(Debug, Clone, Copy, PartialEq, Eq, Structural)]
pub enum State {
    Candidate,
    Leader,
    Follower,
    Dead,
}

/// A vote request sent to `peer`, and what the transport gave back.
pub struct VoteCall {
    pub peer: i32,
    pub req: RequestVote,
    pub reply: Result<RequestVoteReply, RequestError>,
}

/// An append request sent to `peer`, and what the transport gave back.
pub struct AppendCall {
    pub peer: i32,
    pub req: AppendEntriesView,
    pub reply: Result<AppendEntriesReply, RequestError>,
}

/// The value of a node's consensus state. `voted_for` and `commit_idx` are -1
/// when the node has voted for no one in its term, or committed nothing.
/// `timer_restarts` counts the restarts of the election timeout since the
/// node was made; `vote_calls` and `append_calls` record, in order, every
/// call the node made on its transport, with the reply it got.
pub struct ConsensusView {
    pub id: i32,
    pub peer_ids: Seq<i32>,
    pub current_term: i32,
    pub state: State,
    pub voted_for: i32,
    pub commit_idx: i32,
    pub log: Seq<LogEntryView>,
    pub peer_next_idx: Map<i32, i32>,
    pub timer_restarts: nat,
    pub vote_calls: Seq<VoteCall>,
    pub append_calls: Seq<AppendCall>,
}

/// The shortest election timeout, in microseconds. The node's runtime draws
/// each timeout at random between this and `ELECTION_TIMEOUT_MAX_MICROS`.
pub const ELECTION_TIMEOUT_MIN_MICROS: u128 = 150_000;

/// The longest election timeout, in microseconds.
pub const ELECTION_TIMEOUT_MAX_MICROS: u128 = 300_000;

/// The election timeout restarts.
pub open spec fn restart_timer(s: ConsensusView) -> ConsensusView {
    ConsensusView { timer_restarts: s.timer_restarts + 1, ..s }
}

/// The node steps down to follower in `term`, with no vote cast in it, and
/// restarts its election timeout.
pub open spec fn follower_in(s: ConsensusView, term: i32) -> ConsensusView {
    ConsensusView {
        state: State::Follower,
        current_term: term,
        voted_for: -1i32,
        timer_restarts: s.timer_restarts + 1,
        ..s
    }
}

/// Every peer's next index set to the log's length; other keys keep theirs.
pub open spec fn next_indices_reset(s: ConsensusView) -> Map<i32, i32> {
    s.peer_next_idx.union_prefer_right(
        Map::new(|p: i32| s.peer_ids.contains(p), |p: i32| s.log.len() as i32),
    )
}

/// The node takes the lead in its current term, and expects every peer to
/// need the entries after its own log's end.
pub open spec fn leader_of(s: ConsensusView) -> ConsensusView {
    ConsensusView { state: State::Leader, peer_next_idx: next_indices_reset(s), ..s }
}

/// A client command is appended to the log, in the current term, by a leader
/// only; the result says whether it was.
pub open spec fn submit_step(s: ConsensusView, cmd: Seq<u8>) -> (ConsensusView, bool) {
    if s.state == State::Leader {
        (
            ConsensusView {
                log: s.log.push(LogEntryView { cmd, term: s.current_term }),
                ..s
            },
            true,
        )
    } else {
        (s, false)
    }
}

/// How a node answers a vote request: a newer term makes it a follower of
/// that term first; it grants the vote when the request's term is its own
/// and it has voted for no one else in it, and then restarts its election
/// timeout.
pub open spec fn request_vote_step(s: ConsensusView, req: RequestVote) -> (
    ConsensusView,
    Option<RequestVoteReply>,
) {
    if s.state == State::Dead {
        (s, None)
    } else {
        let s1 = if req.term > s.current_term {
            follower_in(s, req.term)
        } else {
            s
        };
        if s1.current_term == req.term && (s1.voted_for == -1 || s1.voted_for
            == req.candidate_id) {
            (
                ConsensusView {
                    voted_for: req.candidate_id,
                    timer_restarts: s1.timer_restarts + 1,
                    ..s1
                },
                Some(RequestVoteReply { term: s1.current_term, vote_granted: true }),
            )
        } else {
            (s1, Some(RequestVoteReply { term: s1.current_term, vote_granted: false }))
        }
    }
}

/// The log holds the entry that an append request names as the one before
/// its entries (or the request names none, index -1).
pub open spec fn prev_entry_matches(log: Seq<LogEntryView>, req: AppendEntriesView) -> bool {
    req.last_log_idx == -1 || (0 <= req.last_log_idx < log.len() && req.last_log_term
        == log[req.last_log_idx as int].term)
}

/// The first `j' >= j` at which `entries[j']` and `log[start + j']` disagree in
/// term, or at which one of them ends.
pub open spec fn agreeing_prefix(
    log: Seq<LogEntryView>,
    start: int,
    entries: Seq<LogEntryView>,
    j: int,
) -> int
    decreases entries.len() - j,
{
    if 0 <= j < entries.len() && 0 <= start + j < log.len() && log[start + j].term
        == entries[j].term {
        agreeing_prefix(log, start, entries, j + 1)
    } else {
        j
    }
}

/// The log after entries arrive for the positions from `start` on: where the
/// first entry disagrees in term with the log, or the log ends, the log is cut
/// and the rest of the entries appended; if every entry agrees, the log stays.
pub open spec fn merged_log(
    log: Seq<LogEntryView>,
    start: int,
    entries: Seq<LogEntryView>,
) -> Seq<LogEntryView> {
    let k: int = agreeing_prefix(log, start, entries, 0);
    if k < entries.len() {
        log.take(start + k) + entries.skip(k)
    } else {
        log
    }
}

/// The smaller of two integers.
pub open spec fn min_int(a: int, b: int) -> int {
    if a < b {
        a
    } else {
        b
    }
}

/// How a node answers an append request. A newer term makes it a follower
/// of that term; a request in its own term makes it a follower if it is not
/// one, and restarts its election timeout. The request succeeds when the term is the node's and the log holds the
/// named previous entry; then the entries are merged into the log, and the
/// commit index rises to the leader's, but no further than the last entry.
pub open spec fn append_entries_step(s: ConsensusView, req: AppendEntriesView) -> (
    ConsensusView,
    Option<AppendEntriesReply>,
) {
    if s.state == State::Dead {
        (s, None)
    } else {
        let s1 = if req.term > s.current_term {
            follower_in(s, req.term)
        } else {
            s
        };
        if req.term != s1.current_term {
            (s1, Some(AppendEntriesReply { term: s1.current_term, success: false }))
        } else {
            let s2 = restart_timer(
                if s1.state != State::Follower {
                    follower_in(s1, req.term)
                } else {
                    s1
                },
            );
            if !prev_entry_matches(s2.log, req) {
                (s2, Some(AppendEntriesReply { term: s1.current_term, success: false }))
            } else {
                let log = merged_log(s2.log, req.last_log_idx + 1, req.entries);
                let commit_idx = if req.leader_commit_idx > s2.commit_idx {
                    min_int(req.leader_commit_idx as int, log.len() - 1) as i32
                } else {
                    s2.commit_idx
                };
                (
                    ConsensusView { log, commit_idx, ..s2 },
                    Some(AppendEntriesReply { term: s1.current_term, success: true }),
                )
            }
        }
    }
}

/// What a candidate does with one vote reply.
#[derive(Debug, Clone, Copy, PartialEq, Eq, Structural)]
pub enum VoteDecision {
    /// The node is no longer a candidate: the election is dropped.
    Abandon,
    /// The peer is in a newer term: the node becomes its follower.
    StepDown(i32),
    /// The vote makes a strict majority of the cluster: the node leads.
    Won,
    /// The election goes on with this many votes.
    Continue(usize),
}

/// The decision on a vote reply for a candidate in `saved_term` holding
/// `votes` votes (its own included) in a cluster of `peers + 1` nodes.
pub open spec fn vote_decision_spec(
    state: State,
    saved_term: i32,
    votes: usize,
    peers: nat,
    reply: RequestVoteReply,
) -> VoteDecision {
    if state != State::Candidate {
        VoteDecision::Abandon
    } else if reply.term > saved_term {
        VoteDecision::StepDown(reply.term)
    } else if reply.term == saved_term && reply.vote_granted {
        if (votes + 1) * 2 > peers + 1 {
            VoteDecision::Won
        } else {
            VoteDecision::Continue((votes + 1) as usize)
        }
    } else {
        VoteDecision::Continue(votes)
    }
}

/// What a leader does with one heartbeat reply.
#[derive(Debug, Clone, Copy, PartialEq, Eq, Structural)]
pub enum HeartbeatDecision {
    /// The peer is in a newer term: the node becomes its follower.
    StepDown(i32),
    /// The peer took the entries: its next index moves past them.
    Advance,
    /// Nothing changes.
    Ignore,
}

/// The decision on a heartbeat reply for a node in `state` that sent it in `saved_term`.
pub open spec fn heartbeat_decision_spec(
    state: State,
    saved_term: i32,
    reply: AppendEntriesReply,
) -> HeartbeatDecision {
    if reply.term > saved_term {
        HeartbeatDecision::StepDown(reply.term)
    } else if state == State::Leader && saved_term == reply.term {
        HeartbeatDecision::Advance
    } else {
        HeartbeatDecision::Ignore
    }
}

/// The append request a node sends to `peer`: it names the entry just before
/// the peer's next index, and carries the log from the next index on (the
/// whole log when there is no previous entry).
pub open spec fn heartbeat_request(s: ConsensusView, peer: i32) -> AppendEntriesView {
    let prev: int = s.peer_next_idx[peer] - 1;
    AppendEntriesView {
        term: s.current_term,
        leader_id: s.id,
        last_log_idx: prev as i32,
        last_log_term: if prev >= 0 {
            s.log[prev].term
        } else {
            -1i32
        },
        leader_commit_idx: s.commit_idx,
        entries: if prev >= 0 {
            s.log.skip(prev + 1)
        } else {
            s.log
        },
    }
}

/// The node records an append request to `peer` and the transport's reply.
pub open spec fn record_append(
    s: ConsensusView,
    peer: i32,
    req: AppendEntriesView,
    reply: Result<AppendEntriesReply, RequestError>,
) -> ConsensusView {
    ConsensusView { append_calls: s.append_calls.push(AppendCall { peer, req, reply }), ..s }
}

/// The node records a vote request to `peer` and the transport's reply.
pub open spec fn record_vote(
    s: ConsensusView,
    peer: i32,
    req: RequestVote,
    reply: Result<RequestVoteReply, RequestError>,
) -> ConsensusView {
    ConsensusView { vote_calls: s.vote_calls.push(VoteCall { peer, req, reply }), ..s }
}

/// Heartbeats to the peers from the `i`-th on, in order, sent in `saved_term`,
/// with `replies[k]` the reply of the `k`-th peer. Each peer is sent
/// `heartbeat_request`, and the call is recorded. A reply from a newer term
/// ends the round with the node a follower of that term.
pub open spec fn heartbeat_round(
    s: ConsensusView,
    saved_term: i32,
    i: int,
    replies: Seq<Result<AppendEntriesReply, RequestError>>,
) -> ConsensusView
    decreases s.peer_ids.len() - i,
{
    if 0 <= i < s.peer_ids.len() {
        let peer: i32 = s.peer_ids[i];
        let req = heartbeat_request(s, peer);
        let s1 = record_append(s, peer, req, replies[i]);
        match replies[i] {
            Ok(reply) => match heartbeat_decision_spec(s.state, saved_term, reply) {
                HeartbeatDecision::StepDown(term) => follower_in(s1, term),
                HeartbeatDecision::Advance => {
                    let next: int = s.peer_next_idx[peer] + req.entries.len();
                    heartbeat_round(
                        ConsensusView {
                            peer_next_idx: s1.peer_next_idx.insert(peer, next as i32),
                            ..s1
                        },
                        saved_term,
                        i + 1,
                        replies,
                    )
                },
                HeartbeatDecision::Ignore => heartbeat_round(s1, saved_term, i + 1, replies),
            },
            Err(_) => heartbeat_round(s1, saved_term, i + 1, replies),
        }
    } else {
        s
    }
}

/// A full round of heartbeats in the node's current term.
pub open spec fn heartbeats(
    s: ConsensusView,
    replies: Seq<Result<AppendEntriesReply, RequestError>>,
) -> ConsensusView {
    heartbeat_round(s, s.current_term, 0, replies)
}

/// The vote request of a candidate in `term`: it names its last log entry.
pub open spec fn vote_request(s: ConsensusView, term: i32) -> RequestVote {
    RequestVote {
        term,
        candidate_id: s.id,
        last_log_idx: (s.log.len() - 1) as i32,
        last_log_term: if s.log.len() > 0 {
            s.log.last().term
        } else {
            -1i32
        },
    }
}

/// A node starts an election: it becomes a candidate in the next term,
/// votes for itself and restarts its election timeout.
pub open spec fn begin_election(s: ConsensusView) -> ConsensusView {
    ConsensusView {
        state: State::Candidate,
        current_term: (s.current_term + 1) as i32,
        voted_for: s.id,
        timer_restarts: s.timer_restarts + 1,
        ..s
    }
}

/// The vote requests from the `i`-th peer on, holding `votes` votes, with
/// `votes_in[k]` the reply of the `k`-th peer; each peer is asked for its vote
/// in `saved_term`, and the call is recorded. A win starts a round of
/// heartbeats, whose replies are `beats`.
pub open spec fn election_round(
    s: ConsensusView,
    saved_term: i32,
    votes: usize,
    i: int,
    votes_in: Seq<Result<RequestVoteReply, RequestError>>,
    beats: Seq<Result<AppendEntriesReply, RequestError>>,
) -> ConsensusView
    decreases s.peer_ids.len() - i,
{
    if 0 <= i < s.peer_ids.len() {
        let s1 = record_vote(
            s,
            s.peer_ids[i],
            vote_request(s, saved_term),
            votes_in[i],
        );
        match votes_in[i] {
            Ok(reply) => match vote_decision_spec(
                s.state,
                saved_term,
                votes,
                s.peer_ids.len(),
                reply,
            ) {
                VoteDecision::Abandon => s1,
                VoteDecision::StepDown(term) => follower_in(s1, term),
                VoteDecision::Won => heartbeats(leader_of(s1), beats),
                VoteDecision::Continue(v) => election_round(
                    s1,
                    saved_term,
                    v,
                    i + 1,
                    votes_in,
                    beats,
                ),
            },
            Err(_) => election_round(s1, saved_term, votes, i + 1, votes_in, beats),
        }
    } else {
        s
    }
}

/// A whole election started from `s`, given the peers' vote replies and, if
/// it is won, their heartbeat replies.
pub open spec fn election(
    s: ConsensusView,
    votes_in: Seq<Result<RequestVoteReply, RequestError>>,
    beats: Seq<Result<AppendEntriesReply, RequestError>>,
) -> ConsensusView {
    let s0 = begin_election(s);
    election_round(s0, s0.current_term, 1, 0, votes_in, beats)
}

/// The replies to the vote requests a node made between `before` and `after`, in order.
pub open spec fn vote_replies_since(before: ConsensusView, after: ConsensusView) -> Seq<
    Result<RequestVoteReply, RequestError>,
> {
    after.vote_calls.skip(before.vote_calls.len() as int).map_values(|c: VoteCall| c.reply)
}

/// The replies to the append requests a node made between `before` and `after`, in order.
pub open spec fn append_replies_since(before: ConsensusView, after: ConsensusView) -> Seq<
    Result<AppendEntriesReply, RequestError>,
> {
    after.append_calls.skip(before.append_calls.len() as int).map_values(|c: AppendCall| c.reply)
}

/// Lengths stay within what the node's `i32` indices and `usize` vote count can hold.
pub open spec fn bounded(s: ConsensusView) -> bool {
    s.peer_ids.len() < i32::MAX && s.log.len() < i32::MAX
}

/// Heartbeats can be sent without an out-of-range index or an overflow:
/// every peer has a next index, above `i32::MIN`, and at most the log's length.
pub open spec fn heartbeat_ready(s: ConsensusView) -> bool {
    forall|i: int|
        #![trigger s.peer_ids[i]]
        0 <= i < s.peer_ids.len() ==> s.peer_next_idx.contains_key(s.peer_ids[i]) && i32::MIN
            < s.peer_next_idx[s.peer_ids[i]] <= s.log.len()
}

/// Every peer has a next index within the log or just past its last entry.
pub open spec fn next_indices_in_log(s: ConsensusView) -> bool {
    forall|i: int|
        #![trigger s.peer_ids[i]]
        0 <= i < s.peer_ids.len() ==> s.peer_next_idx.contains_key(s.peer_ids[i]) && 0
            <= s.peer_next_idx[s.peer_ids[i]] <= s.log.len()
}

/// An append request that a node would accept leaves its log no longer
/// than its `i32` indices can reach.
pub open spec fn append_fits(s: ConsensusView, req: AppendEntriesView) -> bool {
    s.state != State::Dead && req.term >= s.current_term && prev_entry_matches(s.log, req)
        ==> merged_log(s.log, req.last_log_idx + 1, req.entries).len() <= i32::MAX
}

/// An election can be run: the term can grow, and lengths fit the node's indices.
pub open spec fn election_ready(s: ConsensusView) -> bool {
    &&& s.current_term < i32::MAX
    &&& bounded(s)
}

/// The election timer fires: the node is neither leader nor dead (a dead
/// node runs no periodic task) and the drawn timeout has passed.
pub open spec fn election_timer_fires(
    s: ConsensusView,
    elapsed_micros: u128,
    timeout_micros: u128,
) -> bool {
    s.state != State::Leader && s.state != State::Dead && elapsed_micros >= timeout_micros
}

} // verus!
