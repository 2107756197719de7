//! The consensus module of a Raft node: leader election and log replication.
//! Each operation is proved to take the node's state exactly as the step of
//! `model` that bears its name does. Every call on the transport is recorded,
//! with its reply, in the node's state; where peers answer, the operation's
//! outcome is the model's step over the replies so recorded.
use crate::clock::{duration_micros, elapsed_since, now};
use crate::messages::{
    entries_view, AppendEntries, AppendEntriesReply, LogEntry, LogEntryView, RequestVote,
    RequestVoteReply,
};
use crate::laws::{
    law_append_request_answer, law_election_moves_to_newer_term, law_heartbeat_request_contents,
    law_timer_fires, law_vote_request_answer, lemma_heartbeat_round_shape, lemma_merged_log,
};
use crate::model::{
    agreeing_prefix, append_entries_step, append_fits, append_replies_since, begin_election,
    bounded, election, election_ready, election_round, election_timer_fires, follower_in,
    heartbeat_decision_spec, heartbeat_ready, heartbeat_request, heartbeat_round, heartbeats,
    leader_of, merged_log, next_indices_reset, record_append, record_vote, request_vote_step,
    restart_timer, submit_step, vote_decision_spec, vote_replies_since, vote_request, AppendCall,
    ConsensusView, HeartbeatDecision, State, VoteCall, VoteDecision,
};
use crate::server::{RequestError, Server};
use std::collections::HashMap;
use std::time::Instant;
use vstd::prelude::*;

verus! {

broadcast use vstd::std_specs::hash::group_hash_axioms;

/// The state of one node's consensus module, with the transport `server`
/// through which it calls its peers.
pub struct Consensus<S: Server> {
    server: S,
    id: i32,
    peer_ids: Vec<i32>,
    current_term: i32,
    state: State,
    election_reset_event: Instant,
    voted_for: i32,
    commit_idx: i32,
    log: Vec<LogEntry>,
    peer_next_idx: HashMap<i32, i32>,
    timer_restarts: Ghost<nat>,
    vote_calls: Ghost<Seq<VoteCall>>,
    append_calls: Ghost<Seq<AppendCall>>,
}

impl<S: Server> View for Consensus<S> {
    type V = ConsensusView;

    closed spec fn view(&self) -> ConsensusView {
        ConsensusView {
            id: self.id,
            peer_ids: self.peer_ids@,
            current_term: self.current_term,
            state: self.state,
            voted_for: self.voted_for,
            commit_idx: self.commit_idx,
            log: entries_view(self.log@),
            peer_next_idx: self.peer_next_idx@,
            timer_restarts: self.timer_restarts@,
            vote_calls: self.vote_calls@,
            append_calls: self.append_calls@,
        }
    }
}

impl<S: Server> Consensus<S> {
    /// The transport through which this node calls its peers.
    pub closed spec fn transport(&self) -> S {
        self.server
    }

    /// A follower in term 0 that has voted for no one, committed nothing and
    /// holds an empty log, whose next index for every peer is 0.
    pub fn new(server: S, id: i32, peer_ids: Vec<i32>) -> (c: Self)
        ensures
            c@ == (ConsensusView {
                id,
                peer_ids: peer_ids@,
                current_term: 0,
                state: State::Follower,
                voted_for: -1i32,
                commit_idx: -1i32,
                log: Seq::empty(),
                peer_next_idx: Map::new(|p: i32| peer_ids@.contains(p), |p: i32| 0i32),
                timer_restarts: 0,
                vote_calls: Seq::empty(),
                append_calls: Seq::empty(),
            }),
            c.transport() == server,
    {
        let mut peer_next_idx: HashMap<i32, i32> = HashMap::new();
        let mut i: usize = 0;
        while i < peer_ids.len()
            invariant
                i <= peer_ids.len(),
                peer_next_idx@ == Map::new(
                    |p: i32| peer_ids@.take(i as int).contains(p),
                    |p: i32| 0i32,
                ),
            decreases peer_ids.len() - i,
        {
            peer_next_idx.insert(peer_ids[i], 0);
            proof {
                let before = peer_ids@.take(i as int);
                let after = peer_ids@.take(i + 1);
                assert(after == before.push(peer_ids@[i as int]));
                assert forall|p: i32| after.contains(p) <==> before.contains(p) || p
                    == peer_ids@[i as int] by {
                    if after.contains(p) {
                        let k: int = choose|k: int| 0 <= k < after.len() && after[k] == p;
                        if k < i {
                            assert(before[k] == p);
                        }
                    }
                    if before.contains(p) {
                        let k: int = choose|k: int| 0 <= k < before.len() && before[k] == p;
                        assert(after[k] == p);
                    }
                    if p == peer_ids@[i as int] {
                        assert(after[i as int] == p);
                    }
                }
            }
            i += 1;
        }
        assert(peer_ids@.take(peer_ids.len() as int) == peer_ids@);
        let log: Vec<LogEntry> = Vec::new();
        let c = Consensus {
            server,
            id,
            peer_ids,
            current_term: 0,
            state: State::Follower,
            election_reset_event: now(),
            voted_for: -1,
            commit_idx: -1,
            log,
            peer_next_idx,
            timer_restarts: Ghost(0),
            vote_calls: Ghost(Seq::empty()),
            append_calls: Ghost(Seq::empty()),
        };
        assert(entries_view(c.log@) =~= Seq::empty());
        c
    }

    /// Appends `cmd` to the log in the current term if the node leads, and says whether it did.
    pub fn submit(&mut self, cmd: Vec<u8>) -> (appended: bool)
        ensures
            final(self).transport() == old(self).transport(),
            (final(self)@, appended) == submit_step(old(self)@, cmd@),
            appended == (old(self)@.state == State::Leader),
            !appended ==> final(self)@ == old(self)@,
            appended ==> final(self)@.log == old(self)@.log.push(
                LogEntryView { cmd: cmd@, term: old(self)@.current_term },
            ),
    {
        if self.state == State::Leader {
            let entry = LogEntry { cmd: cmd, term: self.current_term };
            self.log.push(entry);
            assert(entries_view(self.log@) =~= entries_view(old(self).log@).push(entry@));
            return true;
        }
        false
    }

    /// Becomes a follower in `term`, with no vote cast in it, and restarts the
    /// election timeout; the timer itself is checked by `run_election_timer`,
    /// which the node's runtime calls periodically.
    pub fn become_follower(&mut self, term: i32)
        ensures
            final(self).transport() == old(self).transport(),
            final(self)@ == follower_in(old(self)@, term),
    {
        self.state = State::Follower;
        self.current_term = term;
        self.voted_for = -1;
        self.restart_election_timer();
    }

    /// Restarts the election timeout from now.
    fn restart_election_timer(&mut self)
        ensures
            final(self).transport() == old(self).transport(),
            final(self)@ == restart_timer(old(self)@),
    {
        self.election_reset_event = now();
        self.timer_restarts = Ghost(self.timer_restarts@ + 1);
    }

    /// Answers a vote request; a dead node answers nothing. No peer is called.
    pub fn on_request_vote(&mut self, req: &RequestVote) -> (reply: Option<RequestVoteReply>)
        ensures
            final(self).transport() == old(self).transport(),
            (final(self)@, reply) == request_vote_step(old(self)@, *req),
            old(self)@.state != State::Dead && req.term > old(self)@.current_term ==> reply == Some(
                RequestVoteReply { term: req.term, vote_granted: true },
            ) && final(self)@.voted_for == req.candidate_id,
            old(self)@.state != State::Dead && req.term < old(self)@.current_term ==> reply == Some(
                RequestVoteReply { term: old(self)@.current_term, vote_granted: false },
            ) && final(self)@ == old(self)@,
            old(self)@.state != State::Dead && req.term == old(self)@.current_term ==> reply == Some(
                RequestVoteReply {
                    term: req.term,
                    vote_granted: old(self)@.voted_for == -1 || old(self)@.voted_for
                        == req.candidate_id,
                },
            ),
            old(self)@.state == State::Dead ==> reply is None && final(self)@ == old(self)@,
    {
        proof {
            law_vote_request_answer(old(self)@, *req);
        }
        if self.state == State::Dead {
            return None;
        }
        if req.term > self.current_term {
            self.become_follower(req.term);
        }
        let mut reply = RequestVoteReply { term: self.current_term, vote_granted: false };
        if self.current_term == req.term && (self.voted_for == -1 || self.voted_for
            == req.candidate_id) {
            reply.vote_granted = true;
            self.voted_for = req.candidate_id;
            self.restart_election_timer();
        }
        Some(reply)
    }

    /// Answers an append request (a heartbeat when it carries no entries); a
    /// dead node answers nothing. No peer is called.
    pub fn on_append_entries(&mut self, req: &AppendEntries) -> (reply: Option<AppendEntriesReply>)
        requires
            append_fits(old(self)@, req@),
        ensures
            final(self).transport() == old(self).transport(),
            (final(self)@, reply) == append_entries_step(old(self)@, req@),
            old(self)@.state != State::Dead && req.term < old(self)@.current_term ==> reply == Some(
                AppendEntriesReply { term: old(self)@.current_term, success: false },
            ) && final(self)@ == old(self)@,
            old(self)@.state != State::Dead ==> (reply matches Some(r) && (r.success <==> (req.term
                >= old(self)@.current_term && (req.last_log_idx == -1 || (0 <= req.last_log_idx
                < old(self)@.log.len() && old(self)@.log[req.last_log_idx as int].term
                == req.last_log_term))))),
    {
        proof {
            law_append_request_answer(old(self)@, req@);
        }
        if self.state == State::Dead {
            return None;
        }
        if req.term > self.current_term {
            self.become_follower(req.term);
        }
        let mut reply = AppendEntriesReply { term: self.current_term, success: false };
        if req.term == self.current_term {
            if self.state != State::Follower {
                self.become_follower(req.term);
            }
            self.restart_election_timer();
            let prev: i32 = req.last_log_idx;
            if prev == -1 || (0 <= prev && (prev as usize) < self.log.len() && req.last_log_term
                == self.log[prev as usize].term) {
                reply.success = true;
                let ghost s2 = self@;
                let ghost ents = req@.entries;
                proof {
                    lemma_merged_log(s2.log, prev + 1, ents);
                }
                let start: usize = (prev + 1) as usize;
                let mut log_insert_idx: usize = start;
                let mut new_entries_idx: usize = 0;
                while log_insert_idx < self.log.len() && new_entries_idx < req.entries.len()
                    && self.log[log_insert_idx].term == req.entries[new_entries_idx].term
                    invariant
                        self@ == s2,
                        self.transport() == old(self).transport(),
                        ents == entries_view(req.entries@),
                        start <= self.log.len(),
                        log_insert_idx == start + new_entries_idx,
                        log_insert_idx <= self.log.len(),
                        new_entries_idx <= req.entries.len(),
                        agreeing_prefix(s2.log, start as int, ents, new_entries_idx as int)
                            == agreeing_prefix(s2.log, start as int, ents, 0),
                    decreases req.entries.len() - new_entries_idx,
                {
                    log_insert_idx += 1;
                    new_entries_idx += 1;
                }
                assert(agreeing_prefix(s2.log, start as int, ents, new_entries_idx as int)
                    == new_entries_idx);
                if new_entries_idx < req.entries.len() {
                    let ghost old_log = self.log@;
                    self.log.truncate(log_insert_idx);
                    assert(self.log@ == old_log.subrange(0, log_insert_idx as int));
                    assert(entries_view(self.log@) =~= s2.log.take(log_insert_idx as int));
                    let mut j: usize = new_entries_idx;
                    while j < req.entries.len()
                        invariant
                            new_entries_idx <= j <= req.entries.len(),
                            self.transport() == old(self).transport(),
                            ents == entries_view(req.entries@),
                            self@ == (ConsensusView {
                                log: s2.log.take(log_insert_idx as int) + ents.subrange(
                                    new_entries_idx as int,
                                    j as int,
                                ),
                                ..s2
                            }),
                        decreases req.entries.len() - j,
                    {
                        let entry = req.entries[j].clone();
                        let ghost before = entries_view(self.log@);
                        self.log.push(entry);
                        assert(entries_view(self.log@) =~= before.push(entry@));
                        assert(ents.subrange(new_entries_idx as int, j + 1) =~= ents.subrange(
                            new_entries_idx as int,
                            j as int,
                        ).push(ents[j as int]));
                        j += 1;
                    }
                    assert(ents.subrange(new_entries_idx as int, j as int) =~= ents.skip(
                        new_entries_idx as int,
                    ));
                    assert(self@.log.len() == log_insert_idx + (ents.len() - new_entries_idx));
                }
                assert(self@.log.len() == self.log.len());
                assert(self@.log == merged_log(s2.log, start as int, ents));
                if req.leader_commit_idx > self.commit_idx {
                    let last: i32 = self.log.len() as i32 - 1;
                    self.commit_idx = if req.leader_commit_idx < last {
                        req.leader_commit_idx
                    } else {
                        last
                    };
                }
            }
        }
        Some(reply)
    }

    /// The append request this node sends to `peer_id` in a round of heartbeats.
    pub fn heartbeat_for(&self, peer_id: i32) -> (req: AppendEntries)
        requires
            self@.peer_next_idx.contains_key(peer_id),
            i32::MIN < self@.peer_next_idx[peer_id] <= self@.log.len(),
        ensures
            req@ == heartbeat_request(self@, peer_id),
            req.term == self@.current_term && req.leader_id == self@.id && req.leader_commit_idx
                == self@.commit_idx,
            req.last_log_idx == self@.peer_next_idx[peer_id] - 1,
            req.last_log_idx >= 0 ==> req.last_log_term == self@.log[req.last_log_idx as int].term
                && req@.entries == self@.log.skip(req.last_log_idx + 1),
            req.last_log_idx < 0 ==> req.last_log_term == -1 && req@.entries == self@.log,
    {
        proof {
            law_heartbeat_request_contents(self@, peer_id);
        }
        let next_idx: i32 = *self.peer_next_idx.get(&peer_id).unwrap();
        let prev_idx: i32 = next_idx - 1;
        let prev_term: i32 = if prev_idx >= 0 {
            self.log[prev_idx as usize].term
        } else {
            -1
        };
        let entries = if prev_idx >= 0 {
            clone_entries_from(&self.log, next_idx as usize)
        } else {
            clone_entries_from(&self.log, 0)
        };
        proof {
            if prev_idx < 0 {
                assert(entries_view(self.log@).skip(0) =~= entries_view(self.log@));
            }
        }
        AppendEntries {
            term: self.current_term,
            leader_id: self.id,
            last_log_idx: prev_idx,
            last_log_term: prev_term,
            entries: entries,
            leader_commit_idx: self.commit_idx,
        }
    }

    /// Sends one round of heartbeats: each peer in turn is sent the log from
    /// its next index on (`heartbeat_for`), and the call and its reply are
    /// recorded. A peer that took the entries has its next index moved past
    /// them; a reply from a newer term makes this node a follower of that
    /// term and ends the round. The final state is the model's round over the
    /// replies the transport gave.
    pub fn leader_send_heartbeats(&mut self)
        requires
            heartbeat_ready(old(self)@),
            bounded(old(self)@),
        ensures
            final(self).transport() == old(self).transport(),
            final(self)@ == heartbeats(old(self)@, append_replies_since(old(self)@, final(self)@)),
            calls_answered(final(self).transport(), old(self)@, final(self)@),
    {
        let ghost s0 = self@;
        let saved_current_term: i32 = self.current_term;
        let n: usize = self.peer_ids.len();
        let ghost mut got: Seq<Result<AppendEntriesReply, RequestError>> = Seq::empty();
        let mut i: usize = 0;
        proof {
            assert(append_replies_since(s0, self@) =~= got);
        }
        while i < n
            invariant
                i <= n,
                self.transport() == old(self).transport(),
                s0 == old(self)@,
                n == s0.peer_ids.len(),
                saved_current_term == s0.current_term,
                bounded(s0),
                heartbeat_ready(self@),
                self@ == (ConsensusView {
                    peer_next_idx: self@.peer_next_idx,
                    append_calls: self@.append_calls,
                    ..s0
                }),
                self@.append_calls.len() >= s0.append_calls.len(),
                calls_answered(self.transport(), s0, self@),
                append_replies_since(s0, self@) == got,
                got.len() == i,
                forall|rest: Seq<Result<AppendEntriesReply, RequestError>>|
                    rest.len() >= i && rest.take(i as int) == got ==> #[trigger] heartbeats(
                        s0,
                        rest,
                    ) == heartbeat_round(self@, saved_current_term, i as int, rest),
            decreases n - i,
        {
            let peer_id: i32 = self.peer_ids[i];
            assert(self@.peer_next_idx.contains_key(self@.peer_ids[i as int]));
            let req = self.heartbeat_for(peer_id);
            let next_idx: i32 = *self.peer_next_idx.get(&peer_id).unwrap();
            let entries_len: usize = req.entries.len();
            assert(entries_len <= self@.log.len());
            let reply = self.server.call_append_entries(peer_id, &req);
            let ghost before = self@;
            self.append_calls = Ghost(
                self.append_calls@.push(AppendCall { peer: peer_id, req: req@, reply }),
            );
            let ghost got_next = got.push(reply);
            proof {
                assert(self@ == record_append(
                    before,
                    peer_id,
                    heartbeat_request(before, peer_id),
                    reply,
                ));
                assert(self@.append_calls.take(before.append_calls.len() as int)
                    =~= before.append_calls);
                lemma_replies_since_push(s0, before, self@);
                lemma_heartbeat_ready_kept(before, self@);
                assert(append_replies_since(s0, self@) =~= got_next);
                assert forall|rest: Seq<Result<AppendEntriesReply, RequestError>>|
                    rest.len() >= i + 1 && rest.take(i + 1) == got_next implies #[trigger] heartbeats(
                    s0,
                    rest,
                ) == heartbeat_round(before, saved_current_term, i as int, rest) && rest[i as int]
                    == reply by {
                    assert(rest.take(i as int) =~= got_next.take(i as int));
                    assert(got_next.take(i as int) =~= got);
                    assert(rest[i as int] == rest.take(i + 1)[i as int]);
                }
            }
            match reply {
                Ok(reply) => {
                    match heartbeat_decision(self.state, saved_current_term, &reply) {
                        HeartbeatDecision::StepDown(term) => {
                            self.become_follower(term);
                            proof {
                                assert(got_next.take(i + 1) =~= got_next);
                                assert(heartbeats(s0, got_next) == self@);
                            }
                            return ;
                        },
                        HeartbeatDecision::Advance => {
                            let ghost recorded = self@;
                            assert(req.entries.len() == req@.entries.len());
                            assert(next_idx == before.peer_next_idx[peer_id]);
                            assert(next_idx >= 1 ==> entries_len == before.log.len() - next_idx);
                            assert(next_idx < 1 ==> entries_len == before.log.len());
                            self.peer_next_idx.insert(peer_id, next_idx + entries_len as i32);
                            proof {
                                assert(self@.peer_next_idx == recorded.peer_next_idx.insert(
                                    peer_id,
                                    self@.peer_next_idx[peer_id],
                                ));
                                assert(self@.peer_ids == recorded.peer_ids);
                                assert(self@.log == recorded.log);
                                lemma_heartbeat_ready_after_advance(
                                    recorded,
                                    self@,
                                    peer_id,
                                );
                            }
                        },
                        HeartbeatDecision::Ignore => {},
                    }
                },
                Err(_) => {},
            }
            proof {
                assert forall|rest: Seq<Result<AppendEntriesReply, RequestError>>|
                    rest.len() >= i + 1 && rest.take(i + 1) == got_next implies #[trigger] heartbeats(
                    s0,
                    rest,
                ) == heartbeat_round(self@, saved_current_term, i + 1, rest) by {
                    assert(rest.take(i as int) =~= got_next.take(i as int));
                    assert(got_next.take(i as int) =~= got);
                    assert(rest[i as int] == rest.take(i + 1)[i as int]);
                }
                got = got_next;
            }
            i += 1;
        }
        proof {
            assert(got.take(n as int) =~= got);
            assert(heartbeats(s0, got) == heartbeat_round(
                self@,
                saved_current_term,
                n as int,
                got,
            ));
        }
    }

    /// Becomes leader: every peer's next index is set to the log's length,
    /// and a first round of heartbeats goes out.
    pub fn start_leader(&mut self)
        requires
            bounded(old(self)@),
        ensures
            final(self).transport() == old(self).transport(),
            final(self)@ == heartbeats(
                leader_of(old(self)@),
                append_replies_since(old(self)@, final(self)@),
            ),
            calls_answered(final(self).transport(), old(self)@, final(self)@),
    {
        self.state = State::Leader;
        let ghost s0 = self@;
        let len: i32 = self.log.len() as i32;
        let n: usize = self.peer_ids.len();
        let mut i: usize = 0;
        proof {
            assert(s0.peer_next_idx.union_prefer_right(
                Map::new(|p: i32| s0.peer_ids.take(0).contains(p), |p: i32| len),
            ) =~= s0.peer_next_idx);
        }
        while i < n
            invariant
                i <= n,
                n == s0.peer_ids.len(),
                len == s0.log.len(),
                self.transport() == old(self).transport(),
                self@ == (ConsensusView { peer_next_idx: self@.peer_next_idx, ..s0 }),
                self@.peer_next_idx == s0.peer_next_idx.union_prefer_right(
                    Map::new(|p: i32| s0.peer_ids.take(i as int).contains(p), |p: i32| len),
                ),
            decreases n - i,
        {
            let ghost before = self@.peer_next_idx;
            self.peer_next_idx.insert(self.peer_ids[i], len);
            proof {
                lemma_take_push_contains(s0.peer_ids, i as int);
                assert(self@.peer_next_idx =~= s0.peer_next_idx.union_prefer_right(
                    Map::new(|p: i32| s0.peer_ids.take(i + 1).contains(p), |p: i32| len),
                ));
            }
            i += 1;
        }
        proof {
            assert(s0.peer_ids.take(n as int) =~= s0.peer_ids);
            assert(self@.peer_next_idx =~= next_indices_reset(old(self)@));
            assert(self@ == leader_of(old(self)@));
            assert forall|k: int|
                #![trigger self@.peer_ids[k]]
                0 <= k < self@.peer_ids.len() implies self@.peer_next_idx.contains_key(
                self@.peer_ids[k],
            ) && i32::MIN < self@.peer_next_idx[self@.peer_ids[k]] <= self@.log.len() by {
                assert(s0.peer_ids.contains(s0.peer_ids[k]));
            }
        }
        self.leader_send_heartbeats();
    }

    /// Runs an election: the node becomes a candidate in the next term, votes
    /// for itself, restarts the election timeout and asks each peer in turn
    /// for its vote with a request that names its last log entry, recording each call and
    /// its reply. A reply from a newer term makes it a follower of that term;
    /// a strict majority of the cluster makes it leader, and it sends
    /// heartbeats; otherwise it stays a candidate until the timer fires again.
    /// The final state is the model's election over the replies the transport
    /// gave.
    pub fn start_election(&mut self)
        requires
            election_ready(old(self)@),
        ensures
            final(self).transport() == old(self).transport(),
            final(self)@ == election(
                old(self)@,
                vote_replies_since(old(self)@, final(self)@),
                append_replies_since(old(self)@, final(self)@),
            ),
            calls_answered(final(self).transport(), old(self)@, final(self)@),
    {
        self.state = State::Candidate;
        self.current_term += 1;
        let saved_current_term: i32 = self.current_term;
        self.voted_for = self.id;
        self.restart_election_timer();
        let mut votes_received: usize = 1;
        let last_log_idx: i32 = self.log.len() as i32 - 1;
        let last_log_term: i32 = if self.log.len() > 0 {
            self.log[self.log.len() - 1].term
        } else {
            -1
        };
        let req = RequestVote {
            term: saved_current_term,
            candidate_id: self.id,
            last_log_idx,
            last_log_term,
        };
        let ghost s0 = self@;
        let n: usize = self.peer_ids.len();
        let ghost mut got: Seq<Result<RequestVoteReply, RequestError>> = Seq::empty();
        let mut i: usize = 0;
        proof {
            assert(vote_replies_since(s0, self@) =~= got);
        }
        while i < n
            invariant
                i <= n,
                self.transport() == old(self).transport(),
                s0 == begin_election(old(self)@),
                req == vote_request(s0, saved_current_term),
                calls_answered(self.transport(), s0, self@),
                self@ == (ConsensusView { vote_calls: self@.vote_calls, ..s0 }),
                self@.vote_calls.len() >= s0.vote_calls.len(),
                n == s0.peer_ids.len(),
                saved_current_term == s0.current_term,
                bounded(s0),
                1 <= votes_received <= i + 1,
                vote_replies_since(s0, self@) == got,
                got.len() == i,
                forall|
                    rest: Seq<Result<RequestVoteReply, RequestError>>,
                    beats: Seq<Result<AppendEntriesReply, RequestError>>,
                |
                    rest.len() >= i && rest.take(i as int) == got ==> #[trigger] election_round(
                        s0,
                        saved_current_term,
                        1,
                        0,
                        rest,
                        beats,
                    ) == election_round(
                        self@,
                        saved_current_term,
                        votes_received,
                        i as int,
                        rest,
                        beats,
                    ),
            decreases n - i,
        {
            let peer_id: i32 = self.peer_ids[i];
            let reply = self.server.call_request_vote(peer_id, &req);
            let ghost before = self@;
            self.vote_calls = Ghost(
                self.vote_calls@.push(VoteCall { peer: peer_id, req, reply }),
            );
            let ghost got_next = got.push(reply);
            proof {
                assert(self@ == record_vote(
                    before,
                    before.peer_ids[i as int],
                    vote_request(before, saved_current_term),
                    reply,
                ));
                assert(self@.vote_calls.take(before.vote_calls.len() as int) =~= before.vote_calls);
                lemma_vote_replies_since_push(s0, before, self@);
                assert(vote_replies_since(s0, self@) =~= got_next);
                assert forall|
                    rest: Seq<Result<RequestVoteReply, RequestError>>,
                    beats: Seq<Result<AppendEntriesReply, RequestError>>,
                |
                    rest.len() >= i + 1 && rest.take(i + 1) == got_next implies #[trigger] election_round(
                    s0,
                    saved_current_term,
                    1,
                    0,
                    rest,
                    beats,
                ) == election_round(
                    before,
                    saved_current_term,
                    votes_received,
                    i as int,
                    rest,
                    beats,
                ) && rest[i as int] == reply by {
                    assert(rest.take(i as int) =~= got_next.take(i as int));
                    assert(got_next.take(i as int) =~= got);
                    assert(rest[i as int] == rest.take(i + 1)[i as int]);
                }
                assert(got_next.take(i + 1) =~= got_next);
            }
            match reply {
                Ok(reply) => {
                    match vote_decision(self.state, saved_current_term, votes_received, n, &reply) {
                        VoteDecision::Abandon => {
                            proof {
                                assert(election(
                                    old(self)@,
                                    got_next,
                                    append_replies_since(old(self)@, self@),
                                ) == self@);
                            }
                            return ;
                        },
                        VoteDecision::StepDown(term) => {
                            self.become_follower(term);
                            proof {
                                assert(election(
                                    old(self)@,
                                    got_next,
                                    append_replies_since(old(self)@, self@),
                                ) == self@);
                            }
                            return ;
                        },
                        VoteDecision::Won => {
                            let ghost recorded = self@;
                            self.start_leader();
                            proof {
                                lemma_heartbeat_round_shape(
                                    leader_of(recorded),
                                    recorded.current_term,
                                    0,
                                    append_replies_since(recorded, self@),
                                );
                                assert(append_replies_since(recorded, self@)
                                    == append_replies_since(old(self)@, self@));
                                assert(election(
                                    old(self)@,
                                    got_next,
                                    append_replies_since(old(self)@, self@),
                                ) == self@);
                            }
                            return ;
                        },
                        VoteDecision::Continue(votes) => {
                            votes_received = votes;
                        },
                    }
                },
                Err(_) => {},
            }
            proof {
                assert forall|
                    rest: Seq<Result<RequestVoteReply, RequestError>>,
                    beats: Seq<Result<AppendEntriesReply, RequestError>>,
                |
                    rest.len() >= i + 1 && rest.take(i + 1) == got_next implies #[trigger] election_round(
                    s0,
                    saved_current_term,
                    1,
                    0,
                    rest,
                    beats,
                ) == election_round(self@, saved_current_term, votes_received, i + 1, rest, beats) by {
                    assert(rest.take(i as int) =~= got_next.take(i as int));
                    assert(got_next.take(i as int) =~= got);
                    assert(rest[i as int] == rest.take(i + 1)[i as int]);
                }
                got = got_next;
            }
            i += 1;
        }
        proof {
            assert(got.take(n as int) =~= got);
            assert(election(old(self)@, got, append_replies_since(old(self)@, self@)) == self@);
        }
    }

    /// One tick of the election timer, `elapsed_micros` after the timeout was
    /// last restarted, against a timeout of `timeout_micros` that the node's
    /// runtime draws at random between `ELECTION_TIMEOUT_MIN_MICROS` and
    /// `ELECTION_TIMEOUT_MAX_MICROS`: a node that is neither leader nor dead
    /// starts an election once the timeout has passed; otherwise nothing changes.
    pub fn on_election_timer(&mut self, elapsed_micros: u128, timeout_micros: u128)
        requires
            election_timer_fires(old(self)@, elapsed_micros, timeout_micros) ==> election_ready(
                old(self)@,
            ),
        ensures
            final(self).transport() == old(self).transport(),
            !election_timer_fires(old(self)@, elapsed_micros, timeout_micros) ==> final(self)@
                == old(self)@,
            election_timer_fires(old(self)@, elapsed_micros, timeout_micros) ==> final(self)@
                == election(
                old(self)@,
                vote_replies_since(old(self)@, final(self)@),
                append_replies_since(old(self)@, final(self)@),
            ),
            calls_answered(final(self).transport(), old(self)@, final(self)@),
            elapsed_micros < timeout_micros ==> final(self)@ == old(self)@,
            (old(self)@.state == State::Follower || old(self)@.state == State::Candidate)
                && elapsed_micros >= timeout_micros ==> final(self)@.current_term > old(
                self,
            )@.current_term,
            (old(self)@.state == State::Follower || old(self)@.state == State::Candidate)
                && elapsed_micros >= timeout_micros ==> (final(self)@.current_term == old(
                self,
            )@.current_term + 1 && final(self)@.voted_for == old(self)@.id && (final(self)@.state
                == State::Candidate || final(self)@.state == State::Leader)) || (final(self)@.state
                == State::Follower && final(self)@.current_term > old(self)@.current_term + 1
                && final(self)@.voted_for == -1),
    {
        proof {
            law_timer_fires(old(self)@, elapsed_micros, timeout_micros);
        }
        let term_started: i32 = self.current_term;
        if self.state == State::Leader || self.state == State::Dead {
            return ;
        }
        if term_started != self.current_term {
            return ;
        }
        if elapsed_micros >= timeout_micros {
            self.start_election();
            proof {
                law_election_moves_to_newer_term(
                    old(self)@,
                    vote_replies_since(old(self)@, self@),
                    append_replies_since(old(self)@, self@),
                );
            }
        }
    }

    /// Checks the election timer against the clock, with the timeout
    /// `timeout_micros`. A leader or a dead node stays as it was; otherwise,
    /// whether the timeout has passed depends on the time of the call, so the
    /// node either stays as it was or has run an election over the replies the
    /// transport gave.
    pub fn run_election_timer(&mut self, timeout_micros: u128)
        requires
            old(self)@.state != State::Leader && old(self)@.state != State::Dead ==> election_ready(
                old(self)@,
            ),
        ensures
            final(self).transport() == old(self).transport(),
            old(self)@.state == State::Leader || old(self)@.state == State::Dead ==> final(self)@
                == old(self)@,
            final(self)@ == old(self)@ || final(self)@ == election(
                old(self)@,
                vote_replies_since(old(self)@, final(self)@),
                append_replies_since(old(self)@, final(self)@),
            ),
            calls_answered(final(self).transport(), old(self)@, final(self)@),
    {
        let elapsed = elapsed_since(&self.election_reset_event);
        let elapsed_micros: u128 = duration_micros(&elapsed);
        self.on_election_timer(elapsed_micros, timeout_micros);
    }

    /// Whether an election can be run now (see `election_ready`).
    pub fn can_start_election(&self) -> (ready: bool)
        ensures
            ready == election_ready(self@),
    {
        self.current_term < i32::MAX && self.peer_ids.len() < i32::MAX as usize && self.log.len()
            < i32::MAX as usize
    }

    /// Whether a round of heartbeats can be sent now (see `heartbeat_ready`).
    pub fn can_send_heartbeats(&self) -> (ready: bool)
        ensures
            ready == heartbeat_ready(self@),
    {
        let n: usize = self.peer_ids.len();
        let mut i: usize = 0;
        while i < n
            invariant
                i <= n,
                n == self@.peer_ids.len(),
                forall|a: int|
                    #![trigger self@.peer_ids[a]]
                    0 <= a < i ==> self@.peer_next_idx.contains_key(self@.peer_ids[a]) && i32::MIN
                        < self@.peer_next_idx[self@.peer_ids[a]] <= self@.log.len(),
            decreases n - i,
        {
            let p: i32 = self.peer_ids[i];
            match self.peer_next_idx.get(&p) {
                Some(next) => {
                    if *next == i32::MIN || (*next > 0 && *next as usize > self.log.len()) {
                        assert(!(i32::MIN < self@.peer_next_idx[self@.peer_ids[i as int]]
                            <= self@.log.len()));
                        return false;
                    }
                    assert(self@.peer_next_idx.contains_key(self@.peer_ids[i as int])
                        && i32::MIN < self@.peer_next_idx[self@.peer_ids[i as int]]
                        <= self@.log.len());
                },
                None => {
                    assert(!self@.peer_next_idx.contains_key(self@.peer_ids[i as int]));
                    return false;
                },
            }
            i += 1;
        }
        true
    }

    pub fn id(&self) -> (id: i32)
        ensures
            id == self@.id,
    {
        self.id
    }

    pub fn state(&self) -> (state: State)
        ensures
            state == self@.state,
    {
        self.state
    }

    pub fn current_term(&self) -> (term: i32)
        ensures
            term == self@.current_term,
    {
        self.current_term
    }

    pub fn voted_for(&self) -> (voted_for: i32)
        ensures
            voted_for == self@.voted_for,
    {
        self.voted_for
    }

    pub fn commit_idx(&self) -> (commit_idx: i32)
        ensures
            commit_idx == self@.commit_idx,
    {
        self.commit_idx
    }

    pub fn log_len(&self) -> (len: usize)
        ensures
            len == self@.log.len(),
    {
        self.log.len()
    }

    /// A copy of the log entry at `idx`.
    pub fn log_entry(&self, idx: usize) -> (entry: LogEntry)
        requires
            idx < self@.log.len(),
        ensures
            entry@ == self@.log[idx as int],
    {
        self.log[idx].clone()
    }

    /// The next index this node holds for `peer`, if it holds one.
    pub fn next_idx(&self, peer: i32) -> (next: Option<i32>)
        ensures
            next == (if self@.peer_next_idx.contains_key(peer) {
                Some(self@.peer_next_idx[peer])
            } else {
                None
            }),
    {
        match self.peer_next_idx.get(&peer) {
            Some(n) => Some(*n),
            None => None,
        }
    }

    /// The transport through which this node calls its peers.
    pub fn server(&self) -> (server: &S)
        ensures
            *server == self.transport(),
    {
        &self.server
    }
}


/// What a candidate in `state`, holding `votes` votes (its own included) in an
/// election for `saved_term` among `peers` peers, does with a vote reply: a
/// strict majority of the `peers + 1` nodes wins.
pub fn vote_decision(
    state: State,
    saved_term: i32,
    votes: usize,
    peers: usize,
    reply: &RequestVoteReply,
) -> (d: VoteDecision)
    requires
        votes <= peers < i32::MAX,
    ensures
        d == vote_decision_spec(state, saved_term, votes, peers as nat, *reply),
{
    if state != State::Candidate {
        VoteDecision::Abandon
    } else if reply.term > saved_term {
        VoteDecision::StepDown(reply.term)
    } else if reply.term == saved_term && reply.vote_granted {
        let votes_received: usize = votes + 1;
        if votes_received * 2 > peers + 1 {
            VoteDecision::Won
        } else {
            VoteDecision::Continue(votes_received)
        }
    } else {
        VoteDecision::Continue(votes)
    }
}

/// Every call recorded in `after` beyond those already in `before` was made
/// on `server`, which gave the reply recorded for the request recorded.
pub open spec fn calls_answered<S: Server>(
    server: S,
    before: ConsensusView,
    after: ConsensusView,
) -> bool {
    &&& forall|j: int|
        #![trigger after.vote_calls[j]]
        before.vote_calls.len() <= j < after.vote_calls.len() ==> server.answered_vote(
            after.vote_calls[j].peer,
            after.vote_calls[j].req,
            after.vote_calls[j].reply,
        )
    &&& forall|j: int|
        #![trigger after.append_calls[j]]
        before.append_calls.len() <= j < after.append_calls.len() ==> server.answered_append(
            after.append_calls[j].peer,
            after.append_calls[j].req,
            after.append_calls[j].reply,
        )
}

/// The first `i + 1` elements hold those of the first `i` and the `i`-th.
proof fn lemma_take_push_contains(s: Seq<i32>, i: int)
    requires
        0 <= i < s.len(),
    ensures
        forall|p: i32| s.take(i + 1).contains(p) <==> (s.take(i).contains(p) || p == s[i]),
{
    let before = s.take(i);
    let after = s.take(i + 1);
    assert forall|p: i32| after.contains(p) <==> (before.contains(p) || p == s[i]) by {
        if after.contains(p) {
            let k: int = choose|k: int| 0 <= k < after.len() && after[k] == p;
            if k < i {
                assert(before[k] == p);
            }
        }
        if before.contains(p) {
            let k: int = choose|k: int| 0 <= k < before.len() && before[k] == p;
            assert(after[k] == p);
        }
        if p == s[i] {
            assert(after[i] == p);
        }
    }
}

/// Being ready for heartbeats depends only on the peers, their next indices and the log's length.
proof fn lemma_heartbeat_ready_kept(s: ConsensusView, t: ConsensusView)
    requires
        heartbeat_ready(s),
        t.peer_ids == s.peer_ids,
        t.peer_next_idx == s.peer_next_idx,
        t.log.len() == s.log.len(),
    ensures
        heartbeat_ready(t),
{
    // `u` agrees with `t` on everything readiness reads, and is `s` itself.
    let u = ConsensusView { peer_ids: t.peer_ids, peer_next_idx: t.peer_next_idx, ..s };
    assert(u == s);
}

/// Recording one more append call adds its reply to those since `s0`.
proof fn lemma_replies_since_push(s0: ConsensusView, before: ConsensusView, after: ConsensusView)
    requires
        before.append_calls.len() >= s0.append_calls.len(),
        after.append_calls.len() == before.append_calls.len() + 1,
        after.append_calls.take(before.append_calls.len() as int) == before.append_calls,
    ensures
        append_replies_since(s0, after) == append_replies_since(s0, before).push(
            after.append_calls.last().reply,
        ),
{
    assert(append_replies_since(s0, after) =~= append_replies_since(s0, before).push(
        after.append_calls.last().reply,
    ));
}

/// Recording one more vote call adds its reply to those since `s0`.
proof fn lemma_vote_replies_since_push(s0: ConsensusView, before: ConsensusView, after: ConsensusView)
    requires
        before.vote_calls.len() >= s0.vote_calls.len(),
        after.vote_calls.len() == before.vote_calls.len() + 1,
        after.vote_calls.take(before.vote_calls.len() as int) == before.vote_calls,
    ensures
        vote_replies_since(s0, after) == vote_replies_since(s0, before).push(
            after.vote_calls.last().reply,
        ),
{
    assert(vote_replies_since(s0, after) =~= vote_replies_since(s0, before).push(
        after.vote_calls.last().reply,
    ));
}

/// Moving one peer's next index to a value within the log keeps the node ready for heartbeats.
proof fn lemma_heartbeat_ready_after_advance(s: ConsensusView, t: ConsensusView, peer: i32)
    requires
        heartbeat_ready(s),
        t.peer_ids == s.peer_ids,
        t.log == s.log,
        t.peer_next_idx == s.peer_next_idx.insert(peer, t.peer_next_idx[peer]),
        i32::MIN < t.peer_next_idx[peer] <= t.log.len(),
    ensures
        heartbeat_ready(t),
{
    assert forall|i: int| 0 <= i < t.peer_ids.len() implies t.peer_next_idx.contains_key(
        #[trigger] t.peer_ids[i],
    ) && i32::MIN < t.peer_next_idx[t.peer_ids[i]] <= t.log.len() by {
        assert(s.peer_next_idx.contains_key(s.peer_ids[i]));
    }
}



/// What a leader in `state` that sent a heartbeat in `saved_term` does with the reply.
pub fn heartbeat_decision(state: State, saved_term: i32, reply: &AppendEntriesReply) -> (d:
    HeartbeatDecision)
    ensures
        d == heartbeat_decision_spec(state, saved_term, *reply),
{
    if reply.term > saved_term {
        HeartbeatDecision::StepDown(reply.term)
    } else if state == State::Leader && saved_term == reply.term {
        HeartbeatDecision::Advance
    } else {
        HeartbeatDecision::Ignore
    }
}

/// Copies of the entries of `log` from index `from` on.
fn clone_entries_from(log: &Vec<LogEntry>, from: usize) -> (entries: Vec<LogEntry>)
    requires
        from <= log.len(),
    ensures
        entries_view(entries@) == entries_view(log@).skip(from as int),
{
    let mut entries: Vec<LogEntry> = Vec::new();
    let mut j: usize = from;
    while j < log.len()
        invariant
            from <= j <= log.len(),
            entries_view(entries@) == entries_view(log@).subrange(from as int, j as int),
        decreases log.len() - j,
    {
        let e = log[j].clone();
        let ghost before = entries_view(entries@);
        entries.push(e);
        assert(entries_view(entries@) =~= before.push(e@));
        assert(entries_view(log@).subrange(from as int, j + 1) =~= entries_view(log@).subrange(
            from as int,
            j as int,
        ).push(log@[j as int]@));
        j += 1;
    }
    assert(entries_view(log@).subrange(from as int, j as int) =~= entries_view(log@).skip(
        from as int,
    ));
    entries
}

} // verus!
