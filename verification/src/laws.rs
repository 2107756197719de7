//! What holds of every step of a node: the laws of the protocol that the
//! consensus module keeps, proved over the steps of `model`.
use crate::messages::{
    AppendEntriesReply, AppendEntriesView, LogEntryView, RequestVote, RequestVoteReply,
};
use crate::model::{
    agreeing_prefix, append_entries_step, append_fits, begin_election, bounded, election,
    election_round, follower_in, heartbeat_ready, heartbeat_request, heartbeat_round, heartbeats,
    leader_of, merged_log, next_indices_in_log, prev_entry_matches, record_append, record_vote,
    request_vote_step, submit_step, vote_decision_spec, vote_request, AppendCall, ConsensusView,
    State, VoteCall, VoteDecision, election_timer_fires, heartbeat_decision_spec, HeartbeatDecision,
};
use crate::server::RequestError;
use vstd::prelude::*;

verus! {

/// A round of heartbeats touches nothing but the peers' next indices and the
/// record of append calls, unless a reply from a newer term makes the node a
/// follower of that term; it makes no vote call, and at most one append call
/// per peer still to go.
pub proof fn lemma_heartbeat_round_shape(
    s: ConsensusView,
    saved_term: i32,
    i: int,
    replies: Seq<Result<AppendEntriesReply, RequestError>>,
)
    requires
        saved_term >= s.current_term,
    ensures
        ({
            let r = heartbeat_round(s, saved_term, i, replies);
            &&& r.id == s.id
            &&& r.peer_ids == s.peer_ids
            &&& r.log == s.log
            &&& r.commit_idx == s.commit_idx
            &&& r.vote_calls == s.vote_calls
            &&& r.append_calls.len() <= s.append_calls.len() + (if 0 <= i <= s.peer_ids.len() {
                s.peer_ids.len() - i
            } else {
                0
            })
            &&& (r.state == s.state && r.current_term == s.current_term && r.voted_for
                == s.voted_for) || (r.state == State::Follower && r.current_term > saved_term
                && r.voted_for == -1)
        }),
    decreases s.peer_ids.len() - i,
{
    if 0 <= i < s.peer_ids.len() {
        let peer: i32 = s.peer_ids[i];
        let req = heartbeat_request(s, peer);
        let s1 = record_append(s, peer, req, replies[i]);
        match replies[i] {
            Ok(reply) => {
                if reply.term > saved_term {
                } else if s.state == State::Leader && saved_term == reply.term {
                    let next: int = s.peer_next_idx[peer] + req.entries.len();
                    lemma_heartbeat_round_shape(
                        ConsensusView {
                            peer_next_idx: s1.peer_next_idx.insert(peer, next as i32),
                            ..s1
                        },
                        saved_term,
                        i + 1,
                        replies,
                    );
                } else {
                    lemma_heartbeat_round_shape(s1, saved_term, i + 1, replies);
                }
            },
            Err(_) => lemma_heartbeat_round_shape(s1, saved_term, i + 1, replies),
        }
    }
}

proof fn lemma_heartbeat_round_ready(
    s: ConsensusView,
    saved_term: i32,
    i: int,
    replies: Seq<Result<AppendEntriesReply, RequestError>>,
)
    requires
        heartbeat_ready(s),
        bounded(s),
    ensures
        heartbeat_ready(heartbeat_round(s, saved_term, i, replies)),
    decreases s.peer_ids.len() - i,
{
    if 0 <= i < s.peer_ids.len() {
        let peer: i32 = s.peer_ids[i];
        let req = heartbeat_request(s, peer);
        let s1 = record_append(s, peer, req, replies[i]);
        assert(s.peer_next_idx.contains_key(s.peer_ids[i]));
        assert(heartbeat_ready(s1)) by {
            assert forall|j: int| 0 <= j < s1.peer_ids.len() implies s1.peer_next_idx.contains_key(
                #[trigger] s1.peer_ids[j],
            ) && i32::MIN < s1.peer_next_idx[s1.peer_ids[j]] <= s1.log.len() by {
                assert(s.peer_next_idx.contains_key(s.peer_ids[j]));
            }
        }
        match replies[i] {
            Ok(reply) => {
                if reply.term > saved_term {
                    let r = follower_in(s1, reply.term);
                    assert forall|j: int| 0 <= j < r.peer_ids.len() implies r.peer_next_idx.contains_key(
                        #[trigger] r.peer_ids[j],
                    ) && i32::MIN < r.peer_next_idx[r.peer_ids[j]] <= r.log.len() by {
                        assert(s1.peer_next_idx.contains_key(s1.peer_ids[j]));
                    }
                } else if s.state == State::Leader && saved_term == reply.term {
                    let next: int = s.peer_next_idx[peer] + req.entries.len();
                    let u = ConsensusView {
                        peer_next_idx: s1.peer_next_idx.insert(peer, next as i32),
                        ..s1
                    };
                    assert(i32::MIN < next <= s.log.len());
                    assert forall|j: int| 0 <= j < u.peer_ids.len() implies u.peer_next_idx.contains_key(
                        #[trigger] u.peer_ids[j],
                    ) && i32::MIN < u.peer_next_idx[u.peer_ids[j]] <= u.log.len() by {
                        assert(s1.peer_next_idx.contains_key(s1.peer_ids[j]));
                    }
                    lemma_heartbeat_round_ready(u, saved_term, i + 1, replies);
                } else {
                    lemma_heartbeat_round_ready(s1, saved_term, i + 1, replies);
                }
            },
            Err(_) => lemma_heartbeat_round_ready(s1, saved_term, i + 1, replies),
        }
    }
}

/// Heartbeats can always be sent again: a round of heartbeats leaves every
/// peer's next index within the log, since a peer that took the entries has
/// its next index moved just past the ones it was sent.
pub proof fn law_heartbeats_keep_ready(
    s: ConsensusView,
    replies: Seq<Result<AppendEntriesReply, RequestError>>,
)
    requires
        heartbeat_ready(s),
        bounded(s),
    ensures
        heartbeat_ready(heartbeats(s, replies)),
{
    lemma_heartbeat_round_ready(s, s.current_term, 0, replies);
}

proof fn lemma_heartbeat_round_in_log(
    s: ConsensusView,
    saved_term: i32,
    i: int,
    replies: Seq<Result<AppendEntriesReply, RequestError>>,
)
    requires
        next_indices_in_log(s),
        bounded(s),
    ensures
        next_indices_in_log(heartbeat_round(s, saved_term, i, replies)),
    decreases s.peer_ids.len() - i,
{
    if 0 <= i < s.peer_ids.len() {
        let peer: i32 = s.peer_ids[i];
        let req = heartbeat_request(s, peer);
        let s1 = record_append(s, peer, req, replies[i]);
        assert(s.peer_next_idx.contains_key(s.peer_ids[i]));
        assert(next_indices_in_log(s1)) by {
            assert forall|j: int| 0 <= j < s1.peer_ids.len() implies s1.peer_next_idx.contains_key(
                #[trigger] s1.peer_ids[j],
            ) && 0 <= s1.peer_next_idx[s1.peer_ids[j]] <= s1.log.len() by {
                assert(s.peer_next_idx.contains_key(s.peer_ids[j]));
            }
        }
        match replies[i] {
            Ok(reply) => {
                if reply.term > saved_term {
                    let r = follower_in(s1, reply.term);
                    assert forall|j: int| 0 <= j < r.peer_ids.len() implies r.peer_next_idx.contains_key(
                        #[trigger] r.peer_ids[j],
                    ) && 0 <= r.peer_next_idx[r.peer_ids[j]] <= r.log.len() by {
                        assert(s1.peer_next_idx.contains_key(s1.peer_ids[j]));
                    }
                } else if s.state == State::Leader && saved_term == reply.term {
                    let next: int = s.peer_next_idx[peer] + req.entries.len();
                    let u = ConsensusView {
                        peer_next_idx: s1.peer_next_idx.insert(peer, next as i32),
                        ..s1
                    };
                    assert(next == s.log.len());
                    assert forall|j: int| 0 <= j < u.peer_ids.len() implies u.peer_next_idx.contains_key(
                        #[trigger] u.peer_ids[j],
                    ) && 0 <= u.peer_next_idx[u.peer_ids[j]] <= u.log.len() by {
                        assert(s1.peer_next_idx.contains_key(s1.peer_ids[j]));
                    }
                    lemma_heartbeat_round_in_log(u, saved_term, i + 1, replies);
                } else {
                    lemma_heartbeat_round_in_log(s1, saved_term, i + 1, replies);
                }
            },
            Err(_) => lemma_heartbeat_round_in_log(s1, saved_term, i + 1, replies),
        }
    }
}

proof fn lemma_heartbeat_round_next(
    s: ConsensusView,
    saved_term: i32,
    i: int,
    replies: Seq<Result<AppendEntriesReply, RequestError>>,
)
    requires
        0 <= i <= s.peer_ids.len(),
        s.peer_ids.no_duplicates(),
        s.log.len() < i32::MAX,
        replies.len() >= s.peer_ids.len(),
        append_replies_within(replies, saved_term),
        forall|j: int|
            #![trigger s.peer_ids[j]]
            i <= j < s.peer_ids.len() ==> s.peer_next_idx.contains_key(s.peer_ids[j]) && 0
                <= s.peer_next_idx[s.peer_ids[j]] <= s.log.len(),
    ensures
        ({
            let r = heartbeat_round(s, saved_term, i, replies);
            &&& r.peer_next_idx.dom() == s.peer_next_idx.dom()
            &&& forall|j: int|
                #![trigger s.peer_ids[j]]
                0 <= j < i ==> r.peer_next_idx[s.peer_ids[j]] == s.peer_next_idx[s.peer_ids[j]]
            &&& forall|j: int|
                #![trigger s.peer_ids[j]]
                i <= j < s.peer_ids.len() ==> r.peer_next_idx[s.peer_ids[j]] == (if s.state
                    == State::Leader && (replies[j] matches Ok(rep) && rep.term == saved_term) {
                    s.log.len() as i32
                } else {
                    s.peer_next_idx[s.peer_ids[j]]
                })
        }),
    decreases s.peer_ids.len() - i,
{
    if i < s.peer_ids.len() {
        let peer: i32 = s.peer_ids[i];
        let req = heartbeat_request(s, peer);
        let s1 = record_append(s, peer, req, replies[i]);
        match replies[i] {
            Ok(reply) => {
                if s.state == State::Leader && saved_term == reply.term {
                    let next: int = s.peer_next_idx[peer] + req.entries.len();
                    assert(next == s.log.len());
                    let u = ConsensusView {
                        peer_next_idx: s1.peer_next_idx.insert(peer, next as i32),
                        ..s1
                    };
                    assert forall|j: int|
                        #![trigger s.peer_ids[j]]
                        0 <= j < s.peer_ids.len() && j != i implies s.peer_ids[j] != peer by {}
                    lemma_heartbeat_round_next(u, saved_term, i + 1, replies);
                    assert(u.peer_next_idx.dom() =~= s.peer_next_idx.dom());
                } else {
                    lemma_heartbeat_round_next(s1, saved_term, i + 1, replies);
                }
            },
            Err(_) => lemma_heartbeat_round_next(s1, saved_term, i + 1, replies),
        }
    }
}

/// A round of heartbeats in which no peer answers from a newer term: the
/// node keeps its state, term, vote, log and commit index, and each peer's
/// next index moves to the end of the log exactly when the node leads and
/// the peer answered in the node's term; every other next index stays.
pub proof fn law_heartbeat_round_outcome(
    s: ConsensusView,
    replies: Seq<Result<AppendEntriesReply, RequestError>>,
)
    requires
        s.peer_ids.no_duplicates(),
        next_indices_in_log(s),
        bounded(s),
        replies.len() == s.peer_ids.len(),
        append_replies_within(replies, s.current_term),
    ensures
        ({
            let h = heartbeats(s, replies);
            &&& h.state == s.state
            &&& h.current_term == s.current_term
            &&& h.voted_for == s.voted_for
            &&& h.log == s.log
            &&& h.commit_idx == s.commit_idx
            &&& h.peer_next_idx.dom() == s.peer_next_idx.dom()
            &&& forall|j: int|
                #![trigger s.peer_ids[j]]
                0 <= j < s.peer_ids.len() ==> h.peer_next_idx[s.peer_ids[j]] == (if s.state
                    == State::Leader && (replies[j] matches Ok(r) && r.term == s.current_term) {
                    s.log.len() as i32
                } else {
                    s.peer_next_idx[s.peer_ids[j]]
                })
        }),
{
    lemma_heartbeat_round_calm(s, s.current_term, 0, replies);
    lemma_heartbeat_round_shape(s, s.current_term, 0, replies);
    lemma_heartbeat_round_next(s, s.current_term, 0, replies);
}

proof fn lemma_heartbeat_round_step_down(
    s: ConsensusView,
    saved_term: i32,
    i: int,
    k: int,
    replies: Seq<Result<AppendEntriesReply, RequestError>>,
)
    requires
        0 <= i <= k < s.peer_ids.len(),
        k < replies.len(),
        replies[k] matches Ok(r) && r.term > saved_term,
        forall|j: int| i <= j < k ==> (#[trigger] replies[j] matches Ok(r) ==> r.term <= saved_term),
    ensures
        ({
            let r = heartbeat_round(s, saved_term, i, replies);
            &&& r.state == State::Follower
            &&& r.voted_for == -1
            &&& r.log == s.log
            &&& replies[k] matches Ok(rep) && r.current_term == rep.term
        }),
    decreases k - i,
{
    let peer: i32 = s.peer_ids[i];
    let req = heartbeat_request(s, peer);
    let s1 = record_append(s, peer, req, replies[i]);
    if i < k {
        match replies[i] {
            Ok(reply) => {
                if s.state == State::Leader && saved_term == reply.term {
                    let next: int = s.peer_next_idx[peer] + req.entries.len();
                    lemma_heartbeat_round_step_down(
                        ConsensusView {
                            peer_next_idx: s1.peer_next_idx.insert(peer, next as i32),
                            ..s1
                        },
                        saved_term,
                        i + 1,
                        k,
                        replies,
                    );
                } else {
                    lemma_heartbeat_round_step_down(s1, saved_term, i + 1, k, replies);
                }
            },
            Err(_) => lemma_heartbeat_round_step_down(s1, saved_term, i + 1, k, replies),
        }
    }
}

/// A heartbeat reply from a newer term ends the leader's round: when the
/// first such reply comes from the `k`-th peer, the node becomes a follower
/// of that reply's term, with no vote cast in it, and keeps its log.
pub proof fn law_heartbeat_step_down(
    s: ConsensusView,
    replies: Seq<Result<AppendEntriesReply, RequestError>>,
    k: int,
)
    requires
        0 <= k < s.peer_ids.len(),
        k < replies.len(),
        replies[k] matches Ok(r) && r.term > s.current_term,
        forall|j: int|
            0 <= j < k ==> (#[trigger] replies[j] matches Ok(r) ==> r.term <= s.current_term),
    ensures
        ({
            let h = heartbeats(s, replies);
            &&& h.state == State::Follower
            &&& h.voted_for == -1
            &&& h.log == s.log
            &&& replies[k] matches Ok(r) && h.current_term == r.term
        }),
{
    lemma_heartbeat_round_step_down(s, s.current_term, 0, k, replies);
}

/// A leader's next indices always lie within its log: taking the lead sets
/// each peer's next index to the log's length, and a round of heartbeats
/// keeps every next index between 0 and the log's length, moving the index of
/// a peer that took the entries to the log's length.
pub proof fn law_next_indices_stay_in_log(
    s: ConsensusView,
    replies: Seq<Result<AppendEntriesReply, RequestError>>,
)
    requires
        bounded(s),
    ensures
        next_indices_in_log(leader_of(s)),
        next_indices_in_log(s) ==> next_indices_in_log(heartbeats(s, replies)),
{
    let l = leader_of(s);
    assert forall|j: int| 0 <= j < l.peer_ids.len() implies l.peer_next_idx.contains_key(
        #[trigger] l.peer_ids[j],
    ) && 0 <= l.peer_next_idx[l.peer_ids[j]] <= l.log.len() by {
        assert(s.peer_ids.contains(s.peer_ids[j]));
    }
    if next_indices_in_log(s) {
        lemma_heartbeat_round_in_log(s, s.current_term, 0, replies);
    }
}

/// The first `k` vote calls of an election in `term`: the peers in order,
/// each asked with the same request, naming the node's last log entry, and
/// the replies given.
pub open spec fn vote_calls_for(
    s: ConsensusView,
    term: i32,
    votes_in: Seq<Result<RequestVoteReply, RequestError>>,
    k: int,
) -> Seq<VoteCall> {
    Seq::new(
        k as nat,
        |j: int|
            VoteCall {
                peer: s.peer_ids[j],
                req: vote_request(s, term),
                reply: votes_in[j],
            },
    )
}

/// The first `k` append calls of a round of heartbeats from `s`: the peers in
/// order, each sent `heartbeat_request(s, peer)`, and the replies given.
pub open spec fn append_calls_for(
    s: ConsensusView,
    replies: Seq<Result<AppendEntriesReply, RequestError>>,
    k: int,
) -> Seq<AppendCall> {
    Seq::new(
        k as nat,
        |j: int|
            AppendCall {
                peer: s.peer_ids[j],
                req: heartbeat_request(s, s.peer_ids[j]),
                reply: replies[j],
            },
    )
}

proof fn lemma_heartbeat_round_calls(
    s: ConsensusView,
    t: ConsensusView,
    i: int,
    replies: Seq<Result<AppendEntriesReply, RequestError>>,
)
    requires
        s.peer_ids.no_duplicates(),
        heartbeat_ready(s),
        0 <= i <= s.peer_ids.len(),
        t.peer_ids == s.peer_ids,
        t.log == s.log,
        t.id == s.id,
        t.current_term == s.current_term,
        t.commit_idx == s.commit_idx,
        t.peer_next_idx.dom() == s.peer_next_idx.dom(),
        forall|j: int| i <= j < s.peer_ids.len() ==> #[trigger] t.peer_next_idx[s.peer_ids[j]]
            == s.peer_next_idx[s.peer_ids[j]],
        t.append_calls == s.append_calls + append_calls_for(s, replies, i),
    ensures
        exists|k: int|
            i <= k <= s.peer_ids.len() && heartbeat_round(t, s.current_term, i, replies).append_calls
                == s.append_calls + #[trigger] append_calls_for(s, replies, k),
    decreases s.peer_ids.len() - i,
{
    if i < s.peer_ids.len() {
        let peer: i32 = t.peer_ids[i];
        let req = heartbeat_request(t, peer);
        assert(req == heartbeat_request(s, peer));
        let s1 = record_append(t, peer, req, replies[i]);
        assert(s1.append_calls =~= s.append_calls + append_calls_for(s, replies, i + 1));
        match replies[i] {
            Ok(reply) => {
                if reply.term > s.current_term {
                    assert(heartbeat_round(t, s.current_term, i, replies).append_calls
                        == s.append_calls + append_calls_for(s, replies, i + 1));
                } else if t.state == State::Leader && s.current_term == reply.term {
                    let next: int = t.peer_next_idx[peer] + req.entries.len();
                    let u = ConsensusView {
                        peer_next_idx: s1.peer_next_idx.insert(peer, next as i32),
                        ..s1
                    };
                    assert(u.peer_next_idx.dom() =~= s.peer_next_idx.dom()) by {
                        assert(s.peer_next_idx.contains_key(s.peer_ids[i]));
                    }
                    assert forall|j: int| i + 1 <= j < s.peer_ids.len() implies #[trigger] u.peer_next_idx[s.peer_ids[j]]
                        == s.peer_next_idx[s.peer_ids[j]] by {
                        assert(s.peer_ids[j] != s.peer_ids[i]);
                    }
                    lemma_heartbeat_round_calls(s, u, i + 1, replies);
                } else {
                    lemma_heartbeat_round_calls(s, s1, i + 1, replies);
                }
            },
            Err(_) => lemma_heartbeat_round_calls(s, s1, i + 1, replies),
        }
    } else {
    }
}

/// What a round of heartbeats sends: the peers in order, each at most once,
/// each sent `heartbeat_request` as the node stood when the round began, the
/// round ending early only on a reply from a newer term; the record holds
/// these calls with the replies given, and no vote call. Peers are taken as
/// distinct: a peer listed twice is sent, the second time, a request built
/// from its next index as the first reply moved it.
pub proof fn law_heartbeat_calls(
    s: ConsensusView,
    replies: Seq<Result<AppendEntriesReply, RequestError>>,
)
    requires
        s.peer_ids.no_duplicates(),
        heartbeat_ready(s),
    ensures
        heartbeats(s, replies).vote_calls == s.vote_calls,
        exists|k: int|
            0 <= k <= s.peer_ids.len() && heartbeats(s, replies).append_calls == s.append_calls
                + #[trigger] append_calls_for(s, replies, k),
{
    lemma_heartbeat_round_shape(s, s.current_term, 0, replies);
    assert(s.append_calls + append_calls_for(s, replies, 0) =~= s.append_calls);
    lemma_heartbeat_round_calls(s, s, 0, replies);
}

proof fn lemma_election_round_calls(
    s: ConsensusView,
    t: ConsensusView,
    saved_term: i32,
    votes: usize,
    i: int,
    votes_in: Seq<Result<RequestVoteReply, RequestError>>,
    beats: Seq<Result<AppendEntriesReply, RequestError>>,
)
    requires
        0 <= i <= s.peer_ids.len(),
        t.peer_ids == s.peer_ids,
        t.id == s.id,
        t.log == s.log,
        t.current_term == saved_term,
        t.append_calls == s.append_calls,
        t.vote_calls == s.vote_calls + vote_calls_for(s, saved_term, votes_in, i),
    ensures
        exists|k: int|
            i <= k <= s.peer_ids.len() && election_round(
                t,
                saved_term,
                votes,
                i,
                votes_in,
                beats,
            ).vote_calls == s.vote_calls + #[trigger] vote_calls_for(s, saved_term, votes_in, k),
        election_round(t, saved_term, votes, i, votes_in, beats).append_calls.len()
            <= s.append_calls.len() + s.peer_ids.len(),
    decreases s.peer_ids.len() - i,
{
    if i < s.peer_ids.len() {
        let s1 = record_vote(
            t,
            t.peer_ids[i],
            vote_request(t, saved_term),
            votes_in[i],
        );
        assert(s1.vote_calls =~= s.vote_calls + vote_calls_for(s, saved_term, votes_in, i + 1));
        match votes_in[i] {
            Ok(reply) => match vote_decision_spec(
                t.state,
                saved_term,
                votes,
                t.peer_ids.len(),
                reply,
            ) {
                VoteDecision::Abandon => {
                },
                VoteDecision::StepDown(term) => {
                },
                VoteDecision::Won => {
                    lemma_heartbeat_round_shape(leader_of(s1), saved_term, 0, beats);
                },
                VoteDecision::Continue(v) => {
                    lemma_election_round_calls(s, s1, saved_term, v, i + 1, votes_in, beats);
                },
            },
            Err(_) => {
                lemma_election_round_calls(s, s1, saved_term, votes, i + 1, votes_in, beats);
            },
        }
    } else {
    }
}

/// What an election asks: the peers in order, each at most once, each with
/// the vote request of the new term, the node's id and its last log entry, the election ending
/// early only on a win, a reply from a newer term, or the node no longer
/// being a candidate; the record holds these calls with the replies given.
/// At most one append call per peer follows, made by a won election.
pub proof fn law_election_calls(
    s: ConsensusView,
    votes_in: Seq<Result<RequestVoteReply, RequestError>>,
    beats: Seq<Result<AppendEntriesReply, RequestError>>,
)
    requires
        s.current_term < i32::MAX,
    ensures
        exists|k: int|
            0 <= k <= s.peer_ids.len() && election(s, votes_in, beats).vote_calls == s.vote_calls
                + #[trigger] vote_calls_for(s, (s.current_term + 1) as i32, votes_in, k),
        election(s, votes_in, beats).append_calls.len() <= s.append_calls.len()
            + s.peer_ids.len(),
{
    let s0 = begin_election(s);
    assert(s0.vote_calls + vote_calls_for(s, s0.current_term, votes_in, 0) =~= s0.vote_calls);
    lemma_election_round_calls(s, s0, s0.current_term, 1, 0, votes_in, beats);
}

/// The number of vote replies from the `i`-th on that grant a vote in `term`.
pub open spec fn grants_from(
    votes_in: Seq<Result<RequestVoteReply, RequestError>>,
    term: i32,
    i: int,
) -> nat
    decreases votes_in.len() - i,
{
    if 0 <= i < votes_in.len() {
        let here: nat = match votes_in[i] {
            Ok(reply) => if reply.term == term && reply.vote_granted {
                1
            } else {
                0
            },
            Err(_) => 0,
        };
        here + grants_from(votes_in, term, i + 1)
    } else {
        0
    }
}

/// An election round run by a candidate ends with it leading only if the
/// votes it held and the grants still to come make a strict majority of the
/// cluster; when it leads, its term and log are those it started with.
pub proof fn lemma_election_round_shape(
    s: ConsensusView,
    saved_term: i32,
    votes: usize,
    i: int,
    votes_in: Seq<Result<RequestVoteReply, RequestError>>,
    beats: Seq<Result<AppendEntriesReply, RequestError>>,
)
    requires
        s.state == State::Candidate,
        s.current_term == saved_term,
        votes_in.len() == s.peer_ids.len(),
        0 <= i,
    ensures
        ({
            let r = election_round(s, saved_term, votes, i, votes_in, beats);
            &&& r.id == s.id
            &&& r.peer_ids == s.peer_ids
            &&& r.log == s.log
            &&& r.commit_idx == s.commit_idx
            &&& r.current_term >= s.current_term
            &&& r.state == State::Leader ==> {
                &&& 2 * (votes + grants_from(votes_in, saved_term, i)) > s.peer_ids.len() + 1
                &&& r.current_term == s.current_term
                &&& r.voted_for == s.voted_for
            }
            &&& r.state == State::Candidate ==> r.current_term == s.current_term && r.voted_for
                == s.voted_for && r.peer_next_idx == s.peer_next_idx
            &&& r.state == State::Follower ==> r.current_term > s.current_term && r.voted_for
                == -1
        }),
    decreases s.peer_ids.len() - i,
{
    if 0 <= i < s.peer_ids.len() {
        let s1 = record_vote(
            s,
            s.peer_ids[i],
            vote_request(s, saved_term),
            votes_in[i],
        );
        match votes_in[i] {
            Ok(reply) => match vote_decision_spec(
                s.state,
                saved_term,
                votes,
                s.peer_ids.len(),
                reply,
            ) {
                VoteDecision::Abandon => {},
                VoteDecision::StepDown(term) => {},
                VoteDecision::Won => {
                    lemma_heartbeat_round_shape(leader_of(s1), saved_term, 0, beats);
                },
                VoteDecision::Continue(v) => {
                    lemma_election_round_shape(s1, saved_term, v, i + 1, votes_in, beats);
                },
            },
            Err(_) => {
                lemma_election_round_shape(s1, saved_term, votes, i + 1, votes_in, beats);
            },
        }
    }
}

/// Election safety, as far as one node can keep it: an election moves the
/// node to a newer term and leaves its log as it was; the node ends it as
/// leader only if a strict majority of the cluster, its own vote included,
/// granted it their votes in the election's term, which is then the term
/// after the one it started in, and it holds the vote it cast for itself.
pub proof fn law_election_outcome(
    s: ConsensusView,
    votes_in: Seq<Result<RequestVoteReply, RequestError>>,
    beats: Seq<Result<AppendEntriesReply, RequestError>>,
)
    requires
        s.current_term < i32::MAX,
        votes_in.len() == s.peer_ids.len(),
    ensures
        election(s, votes_in, beats).current_term > s.current_term,
        election(s, votes_in, beats).log == s.log,
        election(s, votes_in, beats).state == State::Leader ==> {
            &&& 2 * (1 + grants_from(votes_in, (s.current_term + 1) as i32, 0)) > s.peer_ids.len()
                + 1
            &&& election(s, votes_in, beats).current_term == s.current_term + 1
            &&& election(s, votes_in, beats).voted_for == s.id
        },
{
    let s0 = begin_election(s);
    lemma_election_round_shape(s0, s0.current_term, 1, 0, votes_in, beats);
}

/// Terms never go back: no step leaves a node in an older term than it was in.
pub proof fn law_terms_never_decrease(
    s: ConsensusView,
    cmd: Seq<u8>,
    vote_req: RequestVote,
    append_req: AppendEntriesView,
    beats: Seq<Result<AppendEntriesReply, RequestError>>,
)
    ensures
        submit_step(s, cmd).0.current_term == s.current_term,
        request_vote_step(s, vote_req).0.current_term >= s.current_term,
        append_entries_step(s, append_req).0.current_term >= s.current_term,
        heartbeats(s, beats).current_term >= s.current_term,
{
    lemma_heartbeat_round_shape(s, s.current_term, 0, beats);
}

/// A leader never overwrites or deletes entries in its log: submitting a
/// command only appends to the log, answering votes and sending heartbeats
/// leave it as it is (and so do elections, see `law_election_outcome`), and an
/// append request changes the log only of a node that ends up a follower.
pub proof fn law_leader_append_only(
    s: ConsensusView,
    cmd: Seq<u8>,
    vote_req: RequestVote,
    append_req: AppendEntriesView,
    beats: Seq<Result<AppendEntriesReply, RequestError>>,
)
    ensures
        submit_step(s, cmd).0.log.len() >= s.log.len(),
        submit_step(s, cmd).0.log.take(s.log.len() as int) == s.log,
        request_vote_step(s, vote_req).0.log == s.log,
        heartbeats(s, beats).log == s.log,
        append_entries_step(s, append_req).0.log != s.log ==> append_entries_step(
            s,
            append_req,
        ).0.state == State::Follower,
{
    lemma_heartbeat_round_shape(s, s.current_term, 0, beats);
    assert(submit_step(s, cmd).0.log.take(s.log.len() as int) =~= s.log);
}

/// A node votes for at most one candidate in a term: a granted vote is
/// recorded as the node's vote in the request's term, and a node that has
/// voted for someone in its term refuses every other candidate of that term
/// or an older one, keeping its vote.
pub proof fn law_one_vote_per_term(s: ConsensusView, req: RequestVote)
    ensures
        ({
            let (t, reply) = request_vote_step(s, req);
            match reply {
                Some(r) => r.vote_granted ==> t.voted_for == req.candidate_id && t.current_term
                    == req.term && r.term == req.term,
                None => true,
            }
        }),
        s.voted_for != -1 && s.voted_for != req.candidate_id && req.term <= s.current_term ==> {
            let (t, reply) = request_vote_step(s, req);
            &&& t.voted_for == s.voted_for
            &&& match reply {
                Some(r) => !r.vote_granted,
                None => true,
            }
        },
{
}

/// The terms of the log agree with a request's entries from `start + j` on,
/// exactly where `agreeing_prefix` has not stopped.
proof fn lemma_agreeing_prefix_bounds(
    log: Seq<LogEntryView>,
    start: int,
    entries: Seq<LogEntryView>,
    j: int,
)
    requires
        0 <= j <= entries.len(),
        0 <= start,
        start + j <= log.len(),
    ensures
        j <= agreeing_prefix(log, start, entries, j) <= entries.len(),
        start + agreeing_prefix(log, start, entries, j) <= log.len(),
        forall|k: int|
            j <= k < agreeing_prefix(log, start, entries, j) ==> start + k < log.len()
                && log[start + k].term == #[trigger] entries[k].term,
        agreeing_prefix(log, start, entries, j) < entries.len() ==> (start + agreeing_prefix(
            log,
            start,
            entries,
            j,
        ) >= log.len() || log[start + agreeing_prefix(log, start, entries, j)].term
            != entries[agreeing_prefix(log, start, entries, j)].term),
    decreases entries.len() - j,
{
    if j < entries.len() && start + j < log.len() && log[start + j].term == entries[j].term {
        lemma_agreeing_prefix_bounds(log, start, entries, j + 1);
    }
}

/// After entries are merged in from `start`, the log keeps everything
/// before `start`, reaches past the last entry, and agrees in term with
/// every entry at its position; merging the same entries again changes nothing.
pub proof fn lemma_merged_log(log: Seq<LogEntryView>, start: int, entries: Seq<LogEntryView>)
    requires
        0 <= start <= log.len(),
    ensures
        ({
            let m = merged_log(log, start, entries);
            &&& m.take(start) == log.take(start)
            &&& m.len() >= start + entries.len()
            &&& m.len() <= log.len() + entries.len()
            &&& forall|j: int| 0 <= j < entries.len() ==> #[trigger] m[start + j].term
                == entries[j].term
            &&& merged_log(m, start, entries) == m
        }),
{
    let k: int = agreeing_prefix(log, start, entries, 0);
    lemma_agreeing_prefix_bounds(log, start, entries, 0);
    let m = merged_log(log, start, entries);
    if k < entries.len() {
        assert(start + k <= log.len());
        assert(m.take(start) =~= log.take(start));
        assert forall|j: int| 0 <= j < entries.len() implies #[trigger] m[start + j].term
            == entries[j].term by {
            if j < k {
                assert(log[start + j].term == entries[j].term);
            } else {
                assert(m[start + j] == entries.skip(k)[j - k]);
            }
        }
    } else {
        assert(forall|j: int| 0 <= j < entries.len() ==> log[start + j].term == #[trigger] entries[j].term);
    }
    lemma_agreeing_prefix_bounds(m, start, entries, 0);
    let k2 = agreeing_prefix(m, start, entries, 0);
    if k2 < entries.len() {
        assert(m[start + k2].term == entries[k2].term);
    }
}

/// The log holds, at each of the positions `start` to `start + j`, an entry
/// of the same term as the request's entry for that position.
pub open spec fn agrees_through(
    log: Seq<LogEntryView>,
    start: int,
    entries: Seq<LogEntryView>,
    j: int,
) -> bool {
    forall|i: int|
        0 <= i <= j ==> start + i < log.len() && log[start + i].term == #[trigger] entries[i].term
}

/// How entries are merged into a log from `start` on: up to the first entry
/// that conflicts with the log (or finds no entry there), the log keeps its
/// own entries; from there on it holds the request's entries. When every
/// entry agrees with the log, the log keeps its length, with any entries
/// past the request's; otherwise it ends with the request's last entry.
pub proof fn law_merge_entries(log: Seq<LogEntryView>, start: int, entries: Seq<LogEntryView>)
    requires
        0 <= start <= log.len(),
    ensures
        ({
            let m = merged_log(log, start, entries);
            &&& m.take(start) == log.take(start)
            &&& forall|j: int|
                0 <= j < entries.len() ==> #[trigger] m[start + j] == (if agrees_through(
                    log,
                    start,
                    entries,
                    j,
                ) {
                    log[start + j]
                } else {
                    entries[j]
                })
            &&& m.len() == (if entries.len() == 0 || agrees_through(
                log,
                start,
                entries,
                entries.len() - 1,
            ) {
                log.len() as int
            } else {
                start + entries.len()
            })
            &&& (entries.len() == 0 || agrees_through(log, start, entries, entries.len() - 1))
                ==> m == log
        }),
{
    let k: int = agreeing_prefix(log, start, entries, 0);
    lemma_agreeing_prefix_bounds(log, start, entries, 0);
    lemma_merged_log(log, start, entries);
    let m = merged_log(log, start, entries);
    assert forall|j: int| 0 <= j < entries.len() implies #[trigger] m[start + j] == (if agrees_through(
        log,
        start,
        entries,
        j,
    ) {
        log[start + j]
    } else {
        entries[j]
    }) by {
        if j < k {
            assert(agrees_through(log, start, entries, j)) by {
                assert forall|i: int| 0 <= i <= j implies start + i < log.len() && log[start
                    + i].term == #[trigger] entries[i].term by {}
            }
        } else {
            assert(!agrees_through(log, start, entries, j)) by {
                if agrees_through(log, start, entries, j) {
                    assert(log[start + k].term == entries[k].term);
                }
            }
            assert(m[start + j] == entries.skip(k)[j - k]);
        }
    }
    if entries.len() > 0 {
        if k < entries.len() {
            assert(!agrees_through(log, start, entries, entries.len() - 1)) by {
                if agrees_through(log, start, entries, entries.len() - 1) {
                    assert(log[start + k].term == entries[k].term);
                }
            }
        } else {
            assert(agrees_through(log, start, entries, entries.len() - 1)) by {
                assert forall|i: int| 0 <= i <= entries.len() - 1 implies start + i < log.len()
                    && log[start + i].term == #[trigger] entries[i].term by {}
            }
        }
    }
}

/// Log matching, as one follower keeps it: after an append request succeeds,
/// the log is unchanged up to and including the request's previous entry,
/// and from there holds entries that agree in term with every entry of the
/// request; a commit index it raised lies within the log.
pub proof fn law_append_matches_leader(s: ConsensusView, req: AppendEntriesView)
    requires
        append_fits(s, req),
        append_entries_step(s, req).1 matches Some(r) && r.success,
    ensures
        ({
            let t = append_entries_step(s, req).0;
            let start: int = req.last_log_idx + 1;
            &&& t.log.take(start) == s.log.take(start)
            &&& t.log.len() >= start + req.entries.len()
            &&& forall|j: int| 0 <= j < req.entries.len() ==> #[trigger] t.log[start + j].term
                == req.entries[j].term
            &&& t.commit_idx != s.commit_idx ==> t.commit_idx <= t.log.len() - 1
            &&& t.current_term == req.term
            &&& t.state == State::Follower
        }),
{
    lemma_merged_log(s.log, req.last_log_idx + 1, req.entries);
}

/// Redelivery is harmless: a node that answers the same append request twice
/// ends as it was after the first answer, but for one more restart of its
/// election timeout, and answers the same.
pub proof fn law_append_idempotent(s: ConsensusView, req: AppendEntriesView)
    requires
        append_fits(s, req),
    ensures
        append_fits(append_entries_step(s, req).0, req),
        ({
            let (t, reply) = append_entries_step(s, req);
            let (t2, reply2) = append_entries_step(t, req);
            &&& reply2 == reply
            &&& t2 == ConsensusView { timer_restarts: t2.timer_restarts, ..t }
        }),
{
    let (t, reply) = append_entries_step(s, req);
    if s.state != State::Dead && req.term >= s.current_term && prev_entry_matches(
        if req.term > s.current_term || s.state != State::Follower {
            follower_in(s, req.term).log
        } else {
            s.log
        },
        req,
    ) {
        let start: int = req.last_log_idx + 1;
        lemma_merged_log(s.log, start, req.entries);
        if req.last_log_idx >= 0 {
            assert(t.log.take(start)[req.last_log_idx as int] == s.log.take(
                start,
            )[req.last_log_idx as int]);
        }
        assert(prev_entry_matches(t.log, req));
    }
}


/// An election round run by a candidate ends in the term it runs in, with
/// the vote the node held, as candidate or leader; or as a follower of a newer
/// term, with no vote cast in it.
proof fn lemma_election_round_term(
    s: ConsensusView,
    saved_term: i32,
    votes: usize,
    i: int,
    votes_in: Seq<Result<RequestVoteReply, RequestError>>,
    beats: Seq<Result<AppendEntriesReply, RequestError>>,
)
    requires
        s.state == State::Candidate,
        s.current_term == saved_term,
    ensures
        ({
            let r = election_round(s, saved_term, votes, i, votes_in, beats);
            ||| r.current_term == saved_term && r.voted_for == s.voted_for && (r.state
                == State::Candidate || r.state == State::Leader)
            ||| r.state == State::Follower && r.current_term > saved_term && r.voted_for == -1
        }),
    decreases s.peer_ids.len() - i,
{
    if 0 <= i < s.peer_ids.len() {
        let s1 = record_vote(s, s.peer_ids[i], vote_request(s, saved_term), votes_in[i]);
        match votes_in[i] {
            Ok(reply) => match vote_decision_spec(
                s.state,
                saved_term,
                votes,
                s.peer_ids.len(),
                reply,
            ) {
                VoteDecision::Won => {
                    lemma_heartbeat_round_shape(leader_of(s1), saved_term, 0, beats);
                },
                VoteDecision::Continue(v) => {
                    lemma_election_round_term(s1, saved_term, v, i + 1, votes_in, beats);
                },
                _ => {},
            },
            Err(_) => {
                lemma_election_round_term(s1, saved_term, votes, i + 1, votes_in, beats);
            },
        }
    }
}

/// Whatever the peers answer, an election leaves the node in a newer term
/// than the one it started in: the term after it, as candidate or leader,
/// holding its vote for itself; or, when a peer answered from a newer term
/// still, a follower of that term with no vote cast in it.
pub proof fn law_election_moves_to_newer_term(
    s: ConsensusView,
    votes_in: Seq<Result<RequestVoteReply, RequestError>>,
    beats: Seq<Result<AppendEntriesReply, RequestError>>,
)
    requires
        s.current_term < i32::MAX,
    ensures
        election(s, votes_in, beats).current_term >= s.current_term + 1,
        ({
            let e = election(s, votes_in, beats);
            ||| e.current_term == s.current_term + 1 && e.voted_for == s.id && (e.state
                == State::Candidate || e.state == State::Leader)
            ||| e.state == State::Follower && e.current_term > s.current_term + 1 && e.voted_for
                == -1
        }),
{
    let s0 = begin_election(s);
    lemma_election_round_term(s0, s0.current_term, 1, 0, votes_in, beats);
}

/// No reply in `replies` carries a term newer than `term`.
pub open spec fn vote_replies_within(
    replies: Seq<Result<RequestVoteReply, RequestError>>,
    term: i32,
) -> bool {
    forall|k: int| 0 <= k < replies.len() ==> (#[trigger] replies[k] matches Ok(r) ==> r.term <= term)
}

/// No reply in `replies` carries a term newer than `term`.
pub open spec fn append_replies_within(
    replies: Seq<Result<AppendEntriesReply, RequestError>>,
    term: i32,
) -> bool {
    forall|k: int| 0 <= k < replies.len() ==> (#[trigger] replies[k] matches Ok(r) ==> r.term <= term)
}

proof fn lemma_heartbeat_round_calm(
    s: ConsensusView,
    saved_term: i32,
    i: int,
    replies: Seq<Result<AppendEntriesReply, RequestError>>,
)
    requires
        0 <= i,
        replies.len() >= s.peer_ids.len(),
        append_replies_within(replies, saved_term),
    ensures
        ({
            let r = heartbeat_round(s, saved_term, i, replies);
            &&& r.state == s.state
            &&& r.current_term == s.current_term
            &&& r.voted_for == s.voted_for
        }),
    decreases s.peer_ids.len() - i,
{
    if 0 <= i < s.peer_ids.len() {
        let peer: i32 = s.peer_ids[i];
        let req = heartbeat_request(s, peer);
        let s1 = record_append(s, peer, req, replies[i]);
        match replies[i] {
            Ok(reply) => {
                if s.state == State::Leader && saved_term == reply.term {
                    let next: int = s.peer_next_idx[peer] + req.entries.len();
                    lemma_heartbeat_round_calm(
                        ConsensusView {
                            peer_next_idx: s1.peer_next_idx.insert(peer, next as i32),
                            ..s1
                        },
                        saved_term,
                        i + 1,
                        replies,
                    );
                } else {
                    lemma_heartbeat_round_calm(s1, saved_term, i + 1, replies);
                }
            },
            Err(_) => lemma_heartbeat_round_calm(s1, saved_term, i + 1, replies),
        }
    }
}

proof fn lemma_election_round_calm(
    s: ConsensusView,
    saved_term: i32,
    votes: usize,
    i: int,
    votes_in: Seq<Result<RequestVoteReply, RequestError>>,
    beats: Seq<Result<AppendEntriesReply, RequestError>>,
)
    requires
        s.state == State::Candidate,
        s.current_term == saved_term,
        s.peer_ids.len() < i32::MAX,
        votes_in.len() == s.peer_ids.len(),
        beats.len() >= s.peer_ids.len(),
        vote_replies_within(votes_in, saved_term),
        append_replies_within(beats, saved_term),
        0 <= i <= s.peer_ids.len(),
        2 * votes <= s.peer_ids.len() + 1,
    ensures
        ({
            let r = election_round(s, saved_term, votes, i, votes_in, beats);
            &&& r.current_term == saved_term
            &&& r.voted_for == s.voted_for
            &&& (r.state == State::Leader) <==> 2 * (votes + grants_from(votes_in, saved_term, i))
                > s.peer_ids.len() + 1
            &&& r.state != State::Leader ==> r.state == State::Candidate
        }),
    decreases s.peer_ids.len() - i,
{
    if i < s.peer_ids.len() {
        let s1 = record_vote(s, s.peer_ids[i], vote_request(s, saved_term), votes_in[i]);
        match votes_in[i] {
            Ok(reply) => {
                assert(reply.term <= saved_term);
                if reply.term == saved_term && reply.vote_granted {
                    if (votes + 1) * 2 > s.peer_ids.len() + 1 {
                        let l = leader_of(s1);
                        lemma_heartbeat_round_calm(l, l.current_term, 0, beats);
                    } else {
                        lemma_election_round_calm(
                            s1,
                            saved_term,
                            (votes + 1) as usize,
                            i + 1,
                            votes_in,
                            beats,
                        );
                    }
                } else {
                    lemma_election_round_calm(s1, saved_term, votes, i + 1, votes_in, beats);
                }
            },
            Err(_) => lemma_election_round_calm(s1, saved_term, votes, i + 1, votes_in, beats),
        }
    }
}

/// An election that meets no newer term: when no peer's reply, to a vote
/// request or to a heartbeat, carries a term past the election's, the node
/// ends it in the term after the one it started in, holding its vote for
/// itself, and as leader exactly when its own vote and the votes granted in
/// that term make a strict majority of the cluster; otherwise it is still a
/// candidate, and its election timer starts the next election.
pub proof fn law_election_without_newer_term(
    s: ConsensusView,
    votes_in: Seq<Result<RequestVoteReply, RequestError>>,
    beats: Seq<Result<AppendEntriesReply, RequestError>>,
)
    requires
        s.current_term < i32::MAX,
        1 <= s.peer_ids.len() < i32::MAX,
        votes_in.len() == s.peer_ids.len(),
        beats.len() == s.peer_ids.len(),
        vote_replies_within(votes_in, (s.current_term + 1) as i32),
        append_replies_within(beats, (s.current_term + 1) as i32),
    ensures
        ({
            let e = election(s, votes_in, beats);
            &&& e.current_term == s.current_term + 1
            &&& e.voted_for == s.id
            &&& (e.state == State::Leader) <==> 2 * (1 + grants_from(
                votes_in,
                (s.current_term + 1) as i32,
                0,
            )) > s.peer_ids.len() + 1
            &&& e.state != State::Leader ==> e.state == State::Candidate
        }),
{
    let s0 = begin_election(s);
    lemma_election_round_calm(s0, s0.current_term, 1, 0, votes_in, beats);
}

/// When the election timer fires: for a follower or a candidate exactly when
/// the time elapsed reaches the timeout; for a leader or a dead node never.
/// A candidate whose election went nowhere therefore retries it.
pub proof fn law_timer_fires(s: ConsensusView, elapsed_micros: u128, timeout_micros: u128)
    ensures
        (s.state == State::Follower || s.state == State::Candidate) ==> (election_timer_fires(
            s,
            elapsed_micros,
            timeout_micros,
        ) <==> elapsed_micros >= timeout_micros),
        (s.state == State::Leader || s.state == State::Dead) ==> !election_timer_fires(
            s,
            elapsed_micros,
            timeout_micros,
        ),
{
}

/// How a node answers a vote request. A dead node answers nothing and stays
/// as it was. Otherwise the reply carries the node's term afterwards, the
/// larger of its own and the request's; a request from an older term is
/// refused and changes nothing; a request from a newer term finds the node
/// with no vote cast in that term, so it is granted, and the node becomes a
/// follower of that term that voted for the candidate; in the node's own
/// term the vote is granted exactly when the node has voted for no one or for
/// that candidate. A granted vote is recorded as the node's vote in the
/// request's term and restarts the election timeout; a vote refused in the
/// node's own term leaves the timeout running. The log, commit index and
/// next indices never change.
pub proof fn law_vote_request_answer(s: ConsensusView, req: RequestVote)
    ensures
        ({
            let (t, reply) = request_vote_step(s, req);
            &&& s.state == State::Dead ==> reply is None && t == s
            &&& s.state != State::Dead ==> reply is Some
            &&& t.log == s.log
            &&& t.commit_idx == s.commit_idx
            &&& t.peer_next_idx == s.peer_next_idx
            &&& t.current_term >= s.current_term
            &&& match reply {
                Some(r) => {
                    &&& r.term == t.current_term
                    &&& t.current_term == (if req.term > s.current_term {
                        req.term
                    } else {
                        s.current_term
                    })
                    &&& req.term < s.current_term ==> !r.vote_granted && t == s
                    &&& req.term > s.current_term ==> r.vote_granted && t.voted_for
                        == req.candidate_id && t.state == State::Follower
                    &&& req.term == s.current_term ==> (r.vote_granted <==> (s.voted_for == -1
                        || s.voted_for == req.candidate_id)) && t.state == s.state
                    &&& r.vote_granted ==> t.voted_for == req.candidate_id && t.current_term
                        == req.term
                    &&& !r.vote_granted ==> t.voted_for == s.voted_for || req.term
                        > s.current_term
                    &&& r.vote_granted ==> t.timer_restarts > s.timer_restarts
                    &&& !r.vote_granted && req.term <= s.current_term ==> t.timer_restarts
                        == s.timer_restarts
                },
                None => true,
            }
        }),
{
}

/// How a node answers an append request. A dead node answers nothing and
/// stays as it was. Otherwise the reply carries the node's term afterwards,
/// the larger of its own and the request's. A request from an older term is
/// refused and changes nothing. A request from the node's term or a newer one
/// leaves the node a follower in the request's term, and succeeds exactly
/// when the node's log holds the entry the request names as previous (or it
/// names none); a refused request leaves the log and commit index as they
/// were. After a success the log is kept up to the previous entry and agrees
/// in term with every entry of the request after it: the node's own entries
/// stay up to the first one that conflicts with the request, the request's
/// entries take the positions from there on, and the log is cut after them
/// only if some entry conflicted or was new. The commit index rises to the
/// leader's, but no further than the last entry.
pub proof fn law_append_request_answer(s: ConsensusView, req: AppendEntriesView)
    requires
        append_fits(s, req),
    ensures
        ({
            let (t, reply) = append_entries_step(s, req);
            let start = req.last_log_idx + 1;
            &&& s.state == State::Dead ==> reply is None && t == s
            &&& s.state != State::Dead ==> reply is Some
            &&& t.peer_next_idx == s.peer_next_idx
            &&& match reply {
                Some(r) => {
                    &&& r.term == t.current_term
                    &&& t.current_term == (if req.term > s.current_term {
                        req.term
                    } else {
                        s.current_term
                    })
                    &&& req.term < s.current_term ==> !r.success && t == s
                    &&& req.term >= s.current_term ==> t.state == State::Follower
                    &&& req.term > s.current_term ==> t.voted_for == -1
                    &&& req.term == s.current_term && s.state == State::Follower ==> t.voted_for
                        == s.voted_for
                    &&& r.success <==> (req.term >= s.current_term && (req.last_log_idx == -1 || (0
                        <= req.last_log_idx < s.log.len() && s.log[req.last_log_idx as int].term
                        == req.last_log_term)))
                    &&& !r.success ==> t.log == s.log && t.commit_idx == s.commit_idx
                    &&& r.success ==> {
                        &&& t.log.take(start) == s.log.take(start)
                        &&& t.log.len() >= start + req.entries.len()
                        &&& forall|j: int|
                            0 <= j < req.entries.len() ==> #[trigger] t.log[start + j].term
                                == req.entries[j].term
                        &&& req.leader_commit_idx > s.commit_idx ==> t.commit_idx == (if req.leader_commit_idx
                            < t.log.len() - 1 {
                            req.leader_commit_idx as int
                        } else {
                            t.log.len() - 1
                        })
                        &&& req.leader_commit_idx <= s.commit_idx ==> t.commit_idx == s.commit_idx
                        &&& forall|j: int|
                            0 <= j < req.entries.len() ==> #[trigger] t.log[start + j] == (
                            if agrees_through(s.log, start, req.entries, j) {
                                s.log[start + j]
                            } else {
                                req.entries[j]
                            })
                        &&& t.log.len() == (if req.entries.len() == 0 || agrees_through(
                            s.log,
                            start,
                            req.entries,
                            req.entries.len() - 1,
                        ) {
                            s.log.len() as int
                        } else {
                            start + req.entries.len()
                        })
                    }
                },
                None => true,
            }
        }),
{
    if s.state != State::Dead && req.term >= s.current_term && prev_entry_matches(s.log, req) {
        lemma_merged_log(s.log, req.last_log_idx + 1, req.entries);
        law_merge_entries(s.log, req.last_log_idx + 1, req.entries);
    }
}

/// What a leader sends a peer whose next index is `next`: its own term, id
/// and commit index; as previous entry the one at `next - 1`, named by its
/// index and by the term the leader's own log holds there; and its log from
/// `next` on. With no previous entry (`next <= 0`) it names index `next - 1`,
/// term -1, and sends its whole log.
pub proof fn law_heartbeat_request_contents(s: ConsensusView, peer: i32)
    requires
        s.peer_next_idx.contains_key(peer),
        i32::MIN < s.peer_next_idx[peer] <= s.log.len(),
    ensures
        ({
            let r = heartbeat_request(s, peer);
            let next = s.peer_next_idx[peer];
            &&& r.term == s.current_term
            &&& r.leader_id == s.id
            &&& r.leader_commit_idx == s.commit_idx
            &&& r.last_log_idx == next - 1
            &&& next >= 1 ==> r.last_log_term == s.log[next - 1].term && r.entries == s.log.skip(
                next as int,
            )
            &&& next <= 0 ==> r.last_log_term == -1 && r.entries == s.log
        }),
{
}

/// What a candidate asks its peers in an election for `term`: a vote in that
/// term for itself, naming the index of its last log entry and the term its
/// log holds there (index -1 and term -1 for an empty log).
pub proof fn law_vote_request_contents(s: ConsensusView, term: i32)
    requires
        s.log.len() < i32::MAX,
    ensures
        ({
            let r = vote_request(s, term);
            &&& r.term == term
            &&& r.candidate_id == s.id
            &&& r.last_log_idx == s.log.len() - 1
            &&& s.log.len() > 0 ==> r.last_log_term == s.log[s.log.len() - 1].term
            &&& s.log.len() == 0 ==> r.last_log_term == -1
        }),
{
}

/// Only a leader takes a client command: submitting succeeds exactly when the
/// node leads, and then appends the command, in the node's term, as the new
/// last entry and changes nothing else; otherwise nothing changes.
pub proof fn law_submit_only_by_leader(s: ConsensusView, cmd: Seq<u8>)
    ensures
        ({
            let (t, appended) = submit_step(s, cmd);
            &&& appended <==> s.state == State::Leader
            &&& !appended ==> t == s
            &&& appended ==> t.log.len() == s.log.len() + 1 && t.log.last() == LogEntryView {
                cmd,
                term: s.current_term,
            } && t.log.drop_last() == s.log && t == ConsensusView { log: t.log, ..s }
        }),
{
    let (t, appended) = submit_step(s, cmd);
    if appended {
        assert(t.log.drop_last() =~= s.log);
    }
}

/// What a candidate does with a vote reply: a node that is no longer a
/// candidate drops the election; a reply from a newer term makes it a follower
/// of that term; a vote granted in the election's term is counted, and wins
/// exactly when the count, the node's own vote included, is a strict majority
/// of the cluster; any other reply changes nothing.
pub proof fn law_vote_decision(
    state: State,
    saved_term: i32,
    votes: usize,
    peers: nat,
    reply: RequestVoteReply,
)
    ensures
        ({
            let d = vote_decision_spec(state, saved_term, votes, peers, reply);
            &&& (d is Abandon) <==> state != State::Candidate
            &&& state == State::Candidate && reply.term > saved_term ==> d == VoteDecision::StepDown(
                reply.term,
            )
            &&& state == State::Candidate && reply.term == saved_term && reply.vote_granted ==> (
            (d is Won) <==> 2 * (votes + 1) > peers + 1)
            &&& (d is Won) ==> state == State::Candidate && reply.term == saved_term
                && reply.vote_granted && 2 * (votes + 1) > peers + 1
            &&& state == State::Candidate && reply.term <= saved_term && !(reply.term == saved_term
                && reply.vote_granted) ==> d == VoteDecision::Continue(votes)
        }),
{
}

/// What a leader does with a heartbeat reply: a reply from a newer term makes
/// it a follower of that term; a reply in the round's term moves the peer's
/// next index past what was sent, if the node still leads; any other reply
/// changes nothing.
pub proof fn law_heartbeat_decision(state: State, saved_term: i32, reply: AppendEntriesReply)
    ensures
        ({
            let d = heartbeat_decision_spec(state, saved_term, reply);
            &&& reply.term > saved_term <==> d == HeartbeatDecision::StepDown(reply.term)
            &&& (d is Advance) <==> (state == State::Leader && reply.term == saved_term)
            &&& reply.term < saved_term ==> d is Ignore
        }),
{
}

} // verus!
