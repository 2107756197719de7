//! The cluster a node belongs to, as its configuration lists it.
use vstd::prelude::*;

verus! {

/// A member of the cluster: its node id and network address.
#[derive(Debug)]
pub struct Peer {
    pub id: i32,
    pub addr: String,
}

/// The value of a cluster member.
pub struct PeerView {
    pub id: i32,
    pub addr: Seq<char>,
}

impl View for Peer {
    type V = PeerView;

    open spec fn view(&self) -> PeerView {
        PeerView { id: self.id, addr: self.addr@ }
    }
}

impl Clone for Peer {
    fn clone(&self) -> (res: Self)
        ensures
            res@ == self@,
    {
        Peer { id: self.id, addr: self.addr.clone() }
    }
}

/// The members of a cluster.
#[derive(Debug)]
pub struct ClusterConfig {
    pub peers: Vec<Peer>,
}

/// The value of each member, in order.
pub open spec fn peers_view(peers: Seq<Peer>) -> Seq<PeerView> {
    peers.map_values(|p: Peer| p@)
}

/// The members other than node `self_id`, in the order they are listed.
pub open spec fn others(peers: Seq<PeerView>, self_id: i32) -> Seq<PeerView>
    decreases peers.len(),
{
    if peers.len() == 0 {
        Seq::empty()
    } else {
        let rest = others(peers.drop_last(), self_id);
        if peers.last().id == self_id {
            rest
        } else {
            rest.push(peers.last())
        }
    }
}

/// The members a node connects to are the listed members without itself,
/// in the order they are listed: each of them is a listed member other than
/// the node, and each listed member other than the node is among them.
pub proof fn law_others_leave_out_self(peers: Seq<PeerView>, self_id: i32)
    ensures
        others(peers, self_id) == peers.filter(|p: PeerView| p.id != self_id),
        forall|i: int|
            0 <= i < others(peers, self_id).len() ==> (#[trigger] others(peers, self_id)[i]).id
                != self_id && peers.contains(others(peers, self_id)[i]),
        forall|i: int|
            0 <= i < peers.len() && (#[trigger] peers[i]).id != self_id ==> others(
                peers,
                self_id,
            ).contains(peers[i]),
    decreases peers.len(),
{
    let pred = |p: PeerView| p.id != self_id;
    reveal(Seq::filter);
    if peers.len() > 0 {
        law_others_leave_out_self(peers.drop_last(), self_id);
    }
    assert(others(peers, self_id) == peers.filter(pred));
    peers.filter_lemma(pred);
    assert forall|i: int| 0 <= i < peers.len() && (#[trigger] peers[i]).id != self_id implies others(
        peers,
        self_id,
    ).contains(peers[i]) by {
        peers.lemma_filter_contains(pred, i);
    }
}

impl ClusterConfig {
    /// The members that node `self_id` connects to: all but itself, in order.
    pub fn remote_peers(&self, self_id: i32) -> (remote: Vec<Peer>)
        ensures
            peers_view(remote@) == others(peers_view(self.peers@), self_id),
            peers_view(remote@) == peers_view(self.peers@).filter(|p: PeerView| p.id != self_id),
    {
        proof {
            law_others_leave_out_self(peers_view(self.peers@), self_id);
        }
        let mut remote: Vec<Peer> = Vec::new();
        let mut i: usize = 0;
        while i < self.peers.len()
            invariant
                i <= self.peers.len(),
                peers_view(remote@) == others(peers_view(self.peers@).take(i as int), self_id),
            decreases self.peers.len() - i,
        {
            let ghost all = peers_view(self.peers@);
            assert(all.take(i + 1).drop_last() =~= all.take(i as int));
            if self.peers[i].id != self_id {
                let p = self.peers[i].clone();
                let ghost before = peers_view(remote@);
                remote.push(p);
                assert(peers_view(remote@) =~= before.push(p@));
            }
            i += 1;
        }
        assert(peers_view(self.peers@).take(i as int) =~= peers_view(self.peers@));
        remote
    }
}

} // verus!
