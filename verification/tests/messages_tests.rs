use raft::messages::{AppendEntries, AppendEntriesReply, LogEntry, RequestVote, RequestVoteReply};

#[test]
fn request_vote_new_sets_term_and_candidate() {
    let req = RequestVote::new(7, 3);
    assert_eq!(req.term, 7);
    assert_eq!(req.candidate_id, 3);
}

#[test]
fn request_vote_reply_new_denies_the_vote() {
    let reply = RequestVoteReply::new(5);
    assert_eq!(reply, RequestVoteReply { term: 5, vote_granted: false });
}

#[test]
fn append_entries_new_is_an_empty_heartbeat() {
    let req = AppendEntries::new(4, 2);
    assert_eq!(req.term, 4);
    assert_eq!(req.leader_id, 2);
    assert_eq!(req.last_log_idx, -1);
    assert_eq!(req.last_log_term, -1);
    assert_eq!(req.leader_commit_idx, -1);
    assert!(req.entries.is_empty());
}

#[test]
fn append_entries_reply_new_is_unsuccessful() {
    let reply = AppendEntriesReply::new(9);
    assert_eq!(reply, AppendEntriesReply { term: 9, success: false });
}

#[test]
fn log_entry_clone_keeps_command_and_term() {
    let entry = LogEntry { cmd: vec![1, 2, 3], term: 6 };
    let copy = entry.clone();
    assert_eq!(copy.cmd, vec![1, 2, 3]);
    assert_eq!(copy.term, 6);
}
