//! The messages that Raft peers exchange, and the entries of the replicated log.
use vstd::prelude::*;

verus! {

/// One entry of the replicated log: an opaque command and the term in which
/// a leader received it.
#[derive(Debug)]
pub struct LogEntry {
    pub cmd: Vec<u8>,
    pub term: i32,
}

/// The mathematical value of a log entry.
pub struct LogEntryView {
    pub cmd: Seq<u8>,
    pub term: i32,
}

impl View for LogEntry {
    type V = LogEntryView;

    open spec fn view(&self) -> LogEntryView {
        LogEntryView { cmd: self.cmd@, term: self.term }
    }
}

impl Clone for LogEntry {
    fn clone(&self) -> (res: Self)
        ensures
            res@ == self@,
    {
        let cmd = self.cmd.clone();
        assert(cmd@ =~= self.cmd@);
        LogEntry { cmd, term: self.term }
    }
}

/// The value of a sequence of log entries, entry by entry.
pub open spec fn entries_view(entries: Seq<LogEntry>) -> Seq<LogEntryView> {
    entries.map_values(|e: LogEntry| e@)
}

/// A candidate's request for a peer's vote in `term`, naming the index and
/// term of the candidate's last log entry (both -1 when its log is empty).
#[derive(Debug, Clone, Copy, PartialEq, Eq, Structural)]
pub struct RequestVote {
    pub term: i32,
    pub candidate_id: i32,
    pub last_log_idx: i32,
    pub last_log_term: i32,
}

/// A peer's answer to a `RequestVote`: its own current term and whether it
/// granted the vote.
#[derive(Debug, Clone, Copy, PartialEq, Eq, Structural)]
pub struct RequestVoteReply {
    pub term: i32,
    pub vote_granted: bool,
}

/// A leader's request to append `entries` after the entry at index
/// `last_log_idx` (whose term is `last_log_term`; both are -1 when the
/// entries start the log), carrying the leader's commit index. With no
/// entries it is a heartbeat.
#[derive(Debug)]
pub struct AppendEntries {
    pub term: i32,
    pub leader_id: i32,
    pub last_log_idx: i32,
    pub last_log_term: i32,
    pub leader_commit_idx: i32,
    pub entries: Vec<LogEntry>,
}

/// The mathematical value of an `AppendEntries` request.
pub struct AppendEntriesView {
    pub term: i32,
    pub leader_id: i32,
    pub last_log_idx: i32,
    pub last_log_term: i32,
    pub leader_commit_idx: i32,
    pub entries: Seq<LogEntryView>,
}

impl View for AppendEntries {
    type V = AppendEntriesView;

    open spec fn view(&self) -> AppendEntriesView {
        AppendEntriesView {
            term: self.term,
            leader_id: self.leader_id,
            last_log_idx: self.last_log_idx,
            last_log_term: self.last_log_term,
            leader_commit_idx: self.leader_commit_idx,
            entries: entries_view(self.entries@),
        }
    }
}

/// A follower's answer to an `AppendEntries`: its current term and whether
/// its log matched at the request's previous index.
#[derive(Debug, Clone, Copy, PartialEq, Eq, Structural)]
pub struct AppendEntriesReply {
    pub term: i32,
    pub success: bool,
}

impl RequestVote {
    /// A request from a candidate that names no last log entry (index and term -1).
    pub fn new(term: i32, candidate_id: i32) -> (req: Self)
        ensures
            req == (RequestVote { term, candidate_id, last_log_idx: -1i32, last_log_term: -1i32 }),
    {
        Self { term, candidate_id, last_log_idx: -1, last_log_term: -1 }
    }
}

impl RequestVoteReply {
    /// A reply in `term` that does not grant the vote.
    pub fn new(term: i32) -> (reply: Self)
        ensures
            reply == (RequestVoteReply { term, vote_granted: false }),
    {
        Self { term, vote_granted: false }
    }
}

impl AppendEntries {
    /// A heartbeat from `leader_id` in `term`: no entries, no previous entry
    /// (index and term -1), and a commit index of -1, which moves no
    /// follower's commit index.
    pub fn new(term: i32, leader_id: i32) -> (req: Self)
        ensures
            req@ == (AppendEntriesView {
                term,
                leader_id,
                last_log_idx: -1i32,
                last_log_term: -1i32,
                leader_commit_idx: -1i32,
                entries: Seq::empty(),
            }),
    {
        let entries: Vec<LogEntry> = Vec::new();
        let req = Self {
            term,
            leader_id,
            last_log_idx: -1,
            last_log_term: -1,
            leader_commit_idx: -1,
            entries,
        };
        assert(entries_view(req.entries@) =~= Seq::<LogEntryView>::empty());
        req
    }
}

impl AppendEntriesReply {
    /// An unsuccessful reply in `term`.
    pub fn new(term: i32) -> (reply: Self)
        ensures
            reply == (AppendEntriesReply { term, success: false }),
    {
        Self { term, success: false }
    }
}

} // verus!
