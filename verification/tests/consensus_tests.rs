use raft::consensus::{heartbeat_decision, vote_decision, Consensus};
use raft::messages::{AppendEntries, AppendEntriesReply, LogEntry, RequestVote, RequestVoteReply};
use raft::model::{HeartbeatDecision, State, VoteDecision};
use raft::server::{RequestError, Server};
use std::cell::RefCell;
use std::collections::VecDeque;

/// A transport that answers from scripts and records what it was sent.
#[derive(Default)]
struct Scripted {
    votes: RefCell<VecDeque<Result<RequestVoteReply, RequestError>>>,
    appends: RefCell<VecDeque<Result<AppendEntriesReply, RequestError>>>,
    vote_calls: RefCell<Vec<(i32, RequestVote)>>,
    /// peer, term, prev index, prev term, commit index, entry terms
    append_calls: RefCell<Vec<(i32, i32, i32, i32, i32, Vec<i32>)>>,
}

impl Server for Scripted {
    fn call_request_vote(
        &self,
        peer: i32,
        req: &RequestVote,
    ) -> Result<RequestVoteReply, RequestError> {
        self.vote_calls.borrow_mut().push((peer, *req));
        self.votes.borrow_mut().pop_front().unwrap_or(Err(RequestError::Generic))
    }

    fn call_append_entries(
        &self,
        peer: i32,
        req: &AppendEntries,
    ) -> Result<AppendEntriesReply, RequestError> {
        let terms: Vec<i32> = req.entries.iter().map(|e| e.term).collect();
        self.append_calls.borrow_mut().push((
            peer,
            req.term,
            req.last_log_idx,
            req.last_log_term,
            req.leader_commit_idx,
            terms,
        ));
        self.appends.borrow_mut().pop_front().unwrap_or(Err(RequestError::Generic))
    }
}

fn scripted(
    votes: Vec<Result<RequestVoteReply, RequestError>>,
    appends: Vec<Result<AppendEntriesReply, RequestError>>,
) -> Scripted {
    Scripted {
        votes: RefCell::new(votes.into_iter().collect()),
        appends: RefCell::new(appends.into_iter().collect()),
        ..Default::default()
    }
}

fn node(peers: Vec<i32>) -> Consensus<Scripted> {
    Consensus::new(Scripted::default(), 1, peers)
}

fn entry(term: i32, cmd: u8) -> LogEntry {
    LogEntry { cmd: vec![cmd], term }
}

fn append(term: i32, prev: i32, prev_term: i32, commit: i32, entries: Vec<LogEntry>) -> AppendEntries {
    AppendEntries {
        term,
        leader_id: 2,
        last_log_idx: prev,
        last_log_term: prev_term,
        leader_commit_idx: commit,
        entries,
    }
}

fn log_terms<S: Server>(c: &Consensus<S>) -> Vec<i32> {
    (0..c.log_len()).map(|i| c.log_entry(i).term).collect()
}

fn granted(term: i32) -> Result<RequestVoteReply, RequestError> {
    Ok(RequestVoteReply { term, vote_granted: true })
}

fn denied(term: i32) -> Result<RequestVoteReply, RequestError> {
    Ok(RequestVoteReply { term, vote_granted: false })
}

/// A follower in term 2 whose log holds entries of terms 1, 1, 2.
fn follower_with_log() -> Consensus<Scripted> {
    let mut c = node(vec![2, 3]);
    let reply = c.on_append_entries(&append(2, -1, -1, -1, vec![entry(1, 10), entry(1, 11), entry(2, 12)]));
    assert_eq!(reply, Some(AppendEntriesReply { term: 2, success: true }));
    c
}

#[test]
fn new_node_is_a_follower_in_term_zero() {
    let c = node(vec![2, 3]);
    assert_eq!(c.id(), 1);
    assert_eq!(c.state(), State::Follower);
    assert_eq!(c.current_term(), 0);
    assert_eq!(c.voted_for(), -1);
    assert_eq!(c.commit_idx(), -1);
    assert_eq!(c.log_len(), 0);
    assert_eq!(c.next_idx(2), Some(0));
    assert_eq!(c.next_idx(3), Some(0));
    assert_eq!(c.next_idx(4), None);
    assert!(c.can_start_election());
    assert!(c.can_send_heartbeats());
}

#[test]
fn duplicate_peers_can_still_send_heartbeats() {
    let c = node(vec![2, 2]);
    assert!(c.can_send_heartbeats());
    assert!(c.can_start_election());
}

#[test]
fn submit_is_refused_by_a_follower() {
    let mut c = node(vec![2, 3]);
    assert!(!c.submit(vec![1]));
    assert_eq!(c.log_len(), 0);
}

#[test]
fn request_vote_grants_the_first_candidate_of_a_newer_term() {
    let mut c = node(vec![2, 3]);
    let reply = c.on_request_vote(&RequestVote::new(1, 2));
    assert_eq!(reply, Some(RequestVoteReply { term: 1, vote_granted: true }));
    assert_eq!(c.current_term(), 1);
    assert_eq!(c.voted_for(), 2);
    assert_eq!(c.state(), State::Follower);
}

#[test]
fn request_vote_refuses_a_second_candidate_in_the_same_term() {
    let mut c = node(vec![2, 3]);
    c.on_request_vote(&RequestVote::new(1, 2));
    let reply = c.on_request_vote(&RequestVote::new(1, 3));
    assert_eq!(reply, Some(RequestVoteReply { term: 1, vote_granted: false }));
    assert_eq!(c.voted_for(), 2);
}

#[test]
fn request_vote_is_granted_again_to_the_same_candidate() {
    let mut c = node(vec![2, 3]);
    c.on_request_vote(&RequestVote::new(1, 2));
    let reply = c.on_request_vote(&RequestVote::new(1, 2));
    assert_eq!(reply, Some(RequestVoteReply { term: 1, vote_granted: true }));
}

#[test]
fn request_vote_from_an_older_term_is_refused() {
    let mut c = node(vec![2, 3]);
    c.on_request_vote(&RequestVote::new(3, 2));
    let reply = c.on_request_vote(&RequestVote::new(2, 3));
    assert_eq!(reply, Some(RequestVoteReply { term: 3, vote_granted: false }));
    assert_eq!(c.current_term(), 3);
}

#[test]
fn append_entries_fills_an_empty_log() {
    let c = follower_with_log();
    assert_eq!(log_terms(&c), vec![1, 1, 2]);
    assert_eq!(c.log_entry(2).cmd, vec![12]);
    assert_eq!(c.current_term(), 2);
    assert_eq!(c.commit_idx(), -1);
}

#[test]
fn append_entries_from_an_older_term_fails() {
    let mut c = follower_with_log();
    let reply = c.on_append_entries(&append(1, -1, -1, 5, vec![entry(1, 20)]));
    assert_eq!(reply, Some(AppendEntriesReply { term: 2, success: false }));
    assert_eq!(log_terms(&c), vec![1, 1, 2]);
}

#[test]
fn append_entries_with_a_mismatched_previous_term_fails() {
    let mut c = follower_with_log();
    let reply = c.on_append_entries(&append(2, 1, 2, -1, vec![entry(2, 20)]));
    assert_eq!(reply, Some(AppendEntriesReply { term: 2, success: false }));
    assert_eq!(log_terms(&c), vec![1, 1, 2]);
}

#[test]
fn append_entries_past_the_end_of_the_log_fails() {
    let mut c = follower_with_log();
    let reply = c.on_append_entries(&append(2, 3, 2, -1, vec![]));
    assert_eq!(reply, Some(AppendEntriesReply { term: 2, success: false }));
}

#[test]
fn append_entries_with_a_previous_index_below_minus_one_fails() {
    let mut c = follower_with_log();
    let reply = c.on_append_entries(&append(2, -2, -1, -1, vec![entry(2, 20)]));
    assert_eq!(reply, Some(AppendEntriesReply { term: 2, success: false }));
    assert_eq!(log_terms(&c), vec![1, 1, 2]);
}

#[test]
fn append_entries_cuts_the_log_at_the_first_conflict() {
    let mut c = follower_with_log();
    let reply = c.on_append_entries(&append(3, 1, 1, -1, vec![entry(3, 30)]));
    assert_eq!(reply, Some(AppendEntriesReply { term: 3, success: true }));
    assert_eq!(log_terms(&c), vec![1, 1, 3]);
    assert_eq!(c.log_entry(2).cmd, vec![30]);
}

#[test]
fn append_entries_that_agree_keep_the_longer_log() {
    let mut c = follower_with_log();
    let reply = c.on_append_entries(&append(2, 0, 1, -1, vec![entry(1, 99)]));
    assert_eq!(reply, Some(AppendEntriesReply { term: 2, success: true }));
    assert_eq!(log_terms(&c), vec![1, 1, 2]);
    // the agreeing entry keeps the command the log already had
    assert_eq!(c.log_entry(1).cmd, vec![11]);
}

#[test]
fn append_entries_delivered_twice_changes_nothing_more() {
    let mut c = follower_with_log();
    let req = append(3, 1, 1, 7, vec![entry(3, 30), entry(3, 31)]);
    let first = c.on_append_entries(&req);
    let terms = log_terms(&c);
    let commit = c.commit_idx();
    let second = c.on_append_entries(&req);
    assert_eq!(first, second);
    assert_eq!(log_terms(&c), terms);
    assert_eq!(terms, vec![1, 1, 3, 3]);
    assert_eq!(c.commit_idx(), commit);
    assert_eq!(commit, 3);
}

#[test]
fn append_entries_commit_index_is_capped_at_the_last_entry() {
    let mut c = follower_with_log();
    c.on_append_entries(&append(2, 2, 2, 10, vec![]));
    assert_eq!(c.commit_idx(), 2);
}

#[test]
fn append_entries_commit_index_follows_a_lower_leader_commit() {
    let mut c = follower_with_log();
    c.on_append_entries(&append(2, 2, 2, 1, vec![]));
    assert_eq!(c.commit_idx(), 1);
    c.on_append_entries(&append(2, 2, 2, 0, vec![]));
    assert_eq!(c.commit_idx(), 1);
}

#[test]
fn election_won_by_a_majority_makes_a_leader() {
    let server = scripted(vec![granted(1), denied(1), granted(1)], vec![]);
    let mut c = Consensus::new(server, 1, vec![2, 3, 4, 5]);
    c.start_election();
    assert_eq!(c.state(), State::Leader);
    assert_eq!(c.current_term(), 1);
    assert_eq!(c.voted_for(), 1);
    let calls = c.server().vote_calls.borrow().clone();
    // the third vote (self, 2, 4) is a majority of five: peer 5 is never asked
    assert_eq!(calls.len(), 3);
    assert_eq!(calls[0], (2, RequestVote::new(1, 1)));
    assert_eq!(calls[2].0, 4);
    // the new leader sent a heartbeat to every peer
    assert_eq!(c.server().append_calls.borrow().len(), 4);
}

#[test]
fn election_without_a_majority_stays_candidate() {
    let server = scripted(vec![granted(1), denied(1), Err(RequestError::Generic)], vec![]);
    let mut c = Consensus::new(server, 1, vec![2, 3, 4, 5]);
    c.start_election();
    assert_eq!(c.state(), State::Candidate);
    assert_eq!(c.current_term(), 1);
    assert_eq!(c.voted_for(), 1);
    assert_eq!(c.server().vote_calls.borrow().len(), 4);
}

#[test]
fn election_ignores_votes_from_another_term() {
    let server = scripted(vec![Ok(RequestVoteReply { term: 0, vote_granted: true }), granted(1)], vec![]);
    let mut c = Consensus::new(server, 1, vec![2, 3]);
    c.start_election();
    // the stale grant does not count; the second makes two of three
    assert_eq!(c.state(), State::Leader);
    assert_eq!(c.server().vote_calls.borrow().len(), 2);
}

#[test]
fn election_ends_on_a_reply_from_a_newer_term() {
    let server = scripted(vec![denied(5), granted(1)], vec![]);
    let mut c = Consensus::new(server, 1, vec![2, 3]);
    c.start_election();
    assert_eq!(c.state(), State::Follower);
    assert_eq!(c.current_term(), 5);
    assert_eq!(c.voted_for(), -1);
    assert_eq!(c.server().vote_calls.borrow().len(), 1);
}

#[test]
fn single_node_election_is_lost_without_peers() {
    let mut c = node(vec![]);
    c.start_election();
    // with no peer to answer, the loop never counts the node's own vote
    assert_eq!(c.state(), State::Candidate);
    assert_eq!(c.current_term(), 1);
}

#[test]
fn leader_accepts_submitted_commands() {
    let server = scripted(vec![granted(1)], vec![]);
    let mut c = Consensus::new(server, 1, vec![2]);
    c.start_election();
    assert_eq!(c.state(), State::Leader);
    assert!(c.submit(vec![7, 8]));
    assert_eq!(c.log_len(), 1);
    assert_eq!(c.log_entry(0).cmd, vec![7, 8]);
    assert_eq!(c.log_entry(0).term, 1);
}

#[test]
fn heartbeat_carries_the_log_from_the_peer_s_previous_entry() {
    let server = scripted(vec![granted(1)], vec![Ok(AppendEntriesReply { term: 1, success: true })]);
    let mut c = Consensus::new(server, 1, vec![2]);
    c.start_election();
    // the first heartbeat had next index 0: no previous entry, the whole (empty) log
    assert_eq!(c.server().append_calls.borrow()[0], (2, 1, -1, -1, -1, vec![]));
    assert_eq!(c.next_idx(2), Some(0));
    c.submit(vec![1]);
    c.submit(vec![2]);
    c.server().appends.borrow_mut().push_back(Ok(AppendEntriesReply { term: 1, success: true }));
    c.leader_send_heartbeats();
    assert_eq!(c.server().append_calls.borrow()[1], (2, 1, -1, -1, -1, vec![1, 1]));
    assert_eq!(c.next_idx(2), Some(2));
    c.server().appends.borrow_mut().push_back(Ok(AppendEntriesReply { term: 1, success: true }));
    c.leader_send_heartbeats();
    // from next index 2 the request names entry 1 and carries the log from entry 2 on: nothing
    assert_eq!(c.server().append_calls.borrow()[2], (2, 1, 1, 1, -1, vec![]));
    assert_eq!(c.next_idx(2), Some(2));
    c.submit(vec![3]);
    c.server().appends.borrow_mut().push_back(Ok(AppendEntriesReply { term: 1, success: true }));
    c.leader_send_heartbeats();
    // the new entry goes to the peer, right after the one the request names
    assert_eq!(c.server().append_calls.borrow()[3], (2, 1, 1, 1, -1, vec![1]));
    assert_eq!(c.next_idx(2), Some(3));
    // the next index stays within the log: rounds can go on
    assert!(c.can_send_heartbeats());
}

#[test]
fn follower_takes_a_leader_s_heartbeats_in_place() {
    let server = scripted(
        vec![granted(1)],
        vec![Err(RequestError::Generic), Ok(AppendEntriesReply { term: 1, success: true })],
    );
    let mut leader = Consensus::new(server, 1, vec![2]);
    leader.start_election();
    leader.submit(vec![1]);
    leader.submit(vec![2]);
    leader.leader_send_heartbeats();
    assert_eq!(leader.next_idx(2), Some(2));
    leader.submit(vec![3]);
    let mut follower = Consensus::new(Scripted::default(), 2, vec![1]);
    follower.on_append_entries(&append(1, -1, -1, -1, vec![entry(1, 1), entry(1, 2)]));
    let req = leader.heartbeat_for(2);
    assert_eq!(req.last_log_idx, 1);
    assert_eq!(req.entries.len(), 1);
    let reply = follower.on_append_entries(&req);
    assert_eq!(reply, Some(AppendEntriesReply { term: 1, success: true }));
    assert_eq!(log_terms(&follower), vec![1, 1, 1]);
    assert_eq!(follower.log_entry(2).cmd, vec![3]);
    assert_eq!(follower.log_entry(1).cmd, vec![2]);
}

#[test]
fn heartbeat_reply_from_a_newer_term_makes_a_follower() {
    let server = scripted(
        vec![granted(1), granted(1)],
        vec![Ok(AppendEntriesReply { term: 4, success: false })],
    );
    let mut c = Consensus::new(server, 1, vec![2, 3]);
    c.start_election();
    assert_eq!(c.state(), State::Follower);
    assert_eq!(c.current_term(), 4);
    assert_eq!(c.server().append_calls.borrow().len(), 1);
}

#[test]
fn heartbeat_for_names_the_previous_entry() {
    let c = follower_with_log();
    let req = c.heartbeat_for(2);
    assert_eq!(req.term, 2);
    assert_eq!(req.leader_id, 1);
    assert_eq!(req.last_log_idx, -1);
    assert_eq!(req.last_log_term, -1);
    let terms: Vec<i32> = req.entries.iter().map(|e| e.term).collect();
    assert_eq!(terms, vec![1, 1, 2]);
}

#[test]
fn candidate_hearing_a_leader_of_its_term_becomes_follower() {
    let mut c = node(vec![2, 3]);
    c.start_election();
    assert_eq!(c.state(), State::Candidate);
    let reply = c.on_append_entries(&append(1, -1, -1, -1, vec![]));
    assert_eq!(reply, Some(AppendEntriesReply { term: 1, success: true }));
    assert_eq!(c.state(), State::Follower);
    assert_eq!(c.voted_for(), -1);
}

#[test]
fn timer_does_not_fire_before_the_timeout() {
    let mut c = node(vec![2]);
    c.on_election_timer(149_999, 150_000);
    assert_eq!(c.state(), State::Follower);
    assert_eq!(c.current_term(), 0);
}

#[test]
fn timer_starts_an_election_after_the_timeout() {
    let mut c = node(vec![2]);
    c.on_election_timer(150_000, 150_000);
    assert_eq!(c.state(), State::Candidate);
    assert_eq!(c.current_term(), 1);
}

#[test]
fn timer_of_a_leader_never_fires() {
    let server = scripted(vec![granted(1)], vec![]);
    let mut c = Consensus::new(server, 1, vec![2]);
    c.start_election();
    assert_eq!(c.state(), State::Leader);
    c.on_election_timer(1_000_000, 150_000);
    assert_eq!(c.state(), State::Leader);
    assert_eq!(c.current_term(), 1);
}

#[test]
fn timer_waits_for_the_drawn_timeout() {
    let mut c = node(vec![2]);
    c.on_election_timer(1_000, 300_000);
    assert_eq!(c.state(), State::Follower);
    c.on_election_timer(299_999, 300_000);
    assert_eq!(c.current_term(), 0);
    c.on_election_timer(300_000, 300_000);
    assert_eq!(c.state(), State::Candidate);
}

#[test]
fn vote_request_names_the_last_log_entry() {
    let mut c = follower_with_log();
    c.start_election();
    let calls = c.server().vote_calls.borrow().clone();
    assert_eq!(calls.len(), 2);
    assert_eq!(calls[0].1, RequestVote { term: 3, candidate_id: 1, last_log_idx: 2, last_log_term: 2 });
}

#[test]
fn new_leader_sends_from_the_end_of_its_log() {
    let server = scripted(vec![Err(RequestError::Generic), granted(3)], vec![]);
    let mut c = follower_with_log();
    *c.server().votes.borrow_mut() = server.votes.into_inner();
    c.start_election();
    assert_eq!(c.state(), State::Leader);
    // every next index was set to the log's length: the heartbeat names the last entry
    assert_eq!(c.next_idx(2), Some(3));
    assert_eq!(c.server().append_calls.borrow()[0], (2, 3, 2, 2, -1, vec![]));
}

#[test]
fn become_follower_resets_the_vote() {
    let mut c = node(vec![2]);
    c.on_request_vote(&RequestVote::new(1, 2));
    c.become_follower(3);
    assert_eq!(c.current_term(), 3);
    assert_eq!(c.voted_for(), -1);
    assert_eq!(c.state(), State::Follower);
}

#[test]
fn vote_decision_counts_up_to_a_strict_majority() {
    let grant = RequestVoteReply { term: 2, vote_granted: true };
    // 4 peers: five nodes, three votes win
    assert_eq!(vote_decision(State::Candidate, 2, 1, 4, &grant), VoteDecision::Continue(2));
    assert_eq!(vote_decision(State::Candidate, 2, 2, 4, &grant), VoteDecision::Won);
    // 3 peers: four nodes, three votes needed
    assert_eq!(vote_decision(State::Candidate, 2, 1, 3, &grant), VoteDecision::Continue(2));
    assert_eq!(vote_decision(State::Candidate, 2, 2, 3, &grant), VoteDecision::Won);
}

#[test]
fn vote_decision_handles_other_replies() {
    let deny = RequestVoteReply { term: 2, vote_granted: false };
    let newer = RequestVoteReply { term: 3, vote_granted: false };
    let grant = RequestVoteReply { term: 2, vote_granted: true };
    assert_eq!(vote_decision(State::Candidate, 2, 1, 4, &deny), VoteDecision::Continue(1));
    assert_eq!(vote_decision(State::Candidate, 2, 1, 4, &newer), VoteDecision::StepDown(3));
    assert_eq!(vote_decision(State::Follower, 2, 1, 4, &grant), VoteDecision::Abandon);
}

#[test]
fn heartbeat_decision_cases() {
    let same = AppendEntriesReply { term: 2, success: true };
    let newer = AppendEntriesReply { term: 3, success: false };
    let older = AppendEntriesReply { term: 1, success: false };
    assert_eq!(heartbeat_decision(State::Leader, 2, &same), HeartbeatDecision::Advance);
    assert_eq!(heartbeat_decision(State::Follower, 2, &same), HeartbeatDecision::Ignore);
    assert_eq!(heartbeat_decision(State::Leader, 2, &newer), HeartbeatDecision::StepDown(3));
    assert_eq!(heartbeat_decision(State::Leader, 2, &older), HeartbeatDecision::Ignore);
}
