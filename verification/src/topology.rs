//! Who takes part in a simulation.

use vstd::prelude::*;

verus! {

/// A registered part of a simulation: its name and its address.
pub struct Workload {
    /// The name, for reports and for peers.
    pub name: String,
    /// The address.
    pub ip_address: String,
}

impl View for Workload {
    type V = (Seq<char>, Seq<char>);

    /// The name and the address.
    open spec fn view(&self) -> (Seq<char>, Seq<char>) {
        (self.name@, self.ip_address@)
    }
}

/// What a workload knows of the others.
#[derive(Debug, Clone)]
pub struct WorkloadTopology {
    /// The address of the workload itself.
    pub my_ip: String,
    /// The addresses of the others.
    pub peer_ips: Vec<String>,
    /// The names of the others, in the order of their addresses.
    pub peer_names: Vec<String>,
}

/// What a [`WorkloadTopology`] says.
#[verifier::ext_equal]
pub ghost struct TopologyView {
    pub my_ip: Seq<char>,
    /// Names and addresses of the others.
    pub peers: Seq<(Seq<char>, Seq<char>)>,
}

impl View for WorkloadTopology {
    type V = TopologyView;

    open spec fn view(&self) -> TopologyView {
        TopologyView { my_ip: self.my_ip@, peers: zipped(self.peer_names@, self.peer_ips@) }
    }
}

/// Names with the addresses at the same places.
pub open spec fn zipped(names: Seq<String>, ips: Seq<String>) -> Seq<(Seq<char>, Seq<char>)> {
    Seq::new(names.len(), |i: int| (names[i]@, ips[i]@))
}

/// Whether a peer has another address than `ip`.
pub open spec fn elsewhere(ip: Seq<char>) -> spec_fn((Seq<char>, Seq<char>)) -> bool {
    |p: (Seq<char>, Seq<char>)| p.1 != ip
}

/// Whether a peer has a name that begins with `prefix`.
pub open spec fn named_like(prefix: Seq<char>) -> spec_fn((Seq<char>, Seq<char>)) -> bool {
    |p: (Seq<char>, Seq<char>)| prefix.is_prefix_of(p.0)
}

/// The workloads by name and address.
pub open spec fn workload_views(w: Seq<Workload>) -> Seq<(Seq<char>, Seq<char>)> {
    w.map_values(|x: Workload| x@)
}

/// Whether `s` begins with `prefix`.
pub fn starts_with(s: &str, prefix: &str) -> (b: bool)
    ensures
        b == prefix@.is_prefix_of(s@),
{
    let n: usize = prefix.unicode_len();
    if n > s.unicode_len() {
        return false;
    }
    let mut i: usize = 0;
    while i < n
        invariant
            i <= n,
            n == prefix@.len(),
            n <= s@.len(),
            forall|j: int| 0 <= j < i ==> s@[j] == #[trigger] prefix@[j],
        decreases n - i,
    {
        if s.get_char(i) != prefix.get_char(i) {
            proof {
                assert(s@.subrange(0, n as int)[i as int] != prefix@[i as int]);
            }
            return false;
        }
        i += 1;
    }
    proof {
        assert(prefix@ =~= s@.subrange(0, n as int));
    }
    true
}

impl WorkloadTopology {
    /// There is one address per name.
    pub open spec fn wf(&self) -> bool {
        self.peer_names@.len() == self.peer_ips@.len()
    }

    /// The address of the first peer with a name.
    pub fn get_peer_by_name(&self, name: &str) -> (r: Option<String>)
        requires
            self.wf(),
        ensures
            match r {
                Some(ip) => exists|i: int|
                    {
                        &&& 0 <= i < self@.peers.len()
                        &&& #[trigger] self@.peers[i] == (name@, ip@)
                        &&& forall|j: int| 0 <= j < i ==> (#[trigger] self@.peers[j]).0 != name@
                    },
                None => forall|j: int|
                    0 <= j < self@.peers.len() ==> (#[trigger] self@.peers[j]).0 != name@,
            },
    {
        let wanted: String = name.to_owned();
        let mut i: usize = 0;
        while i < self.peer_names.len()
            invariant
                self.wf(),
                i <= self.peer_names@.len(),
                wanted@ == name@,
                forall|j: int| 0 <= j < i ==> (#[trigger] self@.peers[j]).0 != name@,
            decreases self.peer_names@.len() - i,
        {
            if self.peer_names[i] == wanted {
                let ip: String = self.peer_ips[i].clone();
                proof {
                    assert(self@.peers[i as int] == (name@, ip@));
                }
                return Some(ip);
            }
            i += 1;
        }
        None
    }

    /// The names and addresses of the peers whose names begin with a prefix.
    pub fn get_peers_with_prefix(&self, prefix: &str) -> (r: Vec<(String, String)>)
        requires
            self.wf(),
        ensures
            r@.map_values(|p: (String, String)| (p.0@, p.1@)) == self@.peers.filter(
                named_like(prefix@),
            ),
    {
        let mut found: Vec<(String, String)> = Vec::new();
        let ghost peers = self@.peers;
        let ghost pick = |p: (String, String)| (p.0@, p.1@);
        let mut i: usize = 0;
        proof {
            assert(found@.map_values(pick) =~= peers.take(0).filter(named_like(prefix@)));
        }
        while i < self.peer_names.len()
            invariant
                self.wf(),
                i <= self.peer_names@.len(),
                peers == self@.peers,
                pick == (|p: (String, String)| (p.0@, p.1@)),
                found@.map_values(pick) == peers.take(i as int).filter(named_like(prefix@)),
            decreases self.peer_names@.len() - i,
        {
            let ghost before = found@;
            proof {
                let next = peers.take(i + 1);
                assert(next.drop_last() =~= peers.take(i as int));
                assert(next.last() == peers[i as int]);
                reveal(Seq::filter);
            }
            if starts_with(self.peer_names[i].as_str(), prefix) {
                found.push((self.peer_names[i].clone(), self.peer_ips[i].clone()));
                proof {
                    assert(found@.map_values(pick) =~= before.map_values(pick).push(
                        peers[i as int],
                    ));
                }
            }
            i += 1;
        }
        proof {
            assert(peers.take(i as int) =~= peers);
        }
        found
    }
}

/// Makes topologies.
pub struct TopologyFactory;

impl TopologyFactory {
    /// What the workload at `workload_ip` knows of all the workloads: those at
    /// other addresses, in order.
    pub fn create_topology(workload_ip: &str, all_workloads: &Vec<Workload>) -> (t:
        WorkloadTopology)
        ensures
            t.wf(),
            t@ == (TopologyView {
                my_ip: workload_ip@,
                peers: workload_views(all_workloads@).filter(elsewhere(workload_ip@)),
            }),
    {
        let own: String = workload_ip.to_owned();
        let mut peer_ips: Vec<String> = Vec::new();
        let mut peer_names: Vec<String> = Vec::new();
        let ghost all = workload_views(all_workloads@);
        let mut i: usize = 0;
        proof {
            assert(zipped(peer_names@, peer_ips@) =~= all.take(0).filter(elsewhere(workload_ip@)));
        }
        while i < all_workloads.len()
            invariant
                i <= all_workloads@.len(),
                own@ == workload_ip@,
                all == workload_views(all_workloads@),
                peer_names@.len() == peer_ips@.len(),
                zipped(peer_names@, peer_ips@) == all.take(i as int).filter(
                    elsewhere(workload_ip@),
                ),
            decreases all_workloads@.len() - i,
        {
            let ghost names = peer_names@;
            let ghost ips = peer_ips@;
            proof {
                let next = all.take(i + 1);
                assert(next.drop_last() =~= all.take(i as int));
                assert(next.last() == all_workloads@[i as int]@);
                reveal(Seq::filter);
            }
            if all_workloads[i].ip_address != own {
                peer_ips.push(all_workloads[i].ip_address.clone());
                peer_names.push(all_workloads[i].name.clone());
                proof {
                    assert(zipped(peer_names@, peer_ips@) =~= zipped(names, ips).push(
                        all_workloads@[i as int]@,
                    ));
                }
            }
            i += 1;
        }
        proof {
            assert(all.take(i as int) =~= all);
        }
        WorkloadTopology { my_ip: own, peer_ips, peer_names }
    }
}

/// No workload finds itself among its peers.
pub proof fn lemma_no_one_is_its_own_peer(w: Seq<Workload>, ip: Seq<char>)
    ensures
        forall|i: int|
            0 <= i < workload_views(w).filter(elsewhere(ip)).len()
                ==> (#[trigger] workload_views(w).filter(elsewhere(ip))[i]).1 != ip,
{
    broadcast use vstd::seq_lib::group_filter_ensures;

    let s = workload_views(w);
    assert forall|i: int| 0 <= i < s.filter(elsewhere(ip)).len() implies (#[trigger] s.filter(
        elsewhere(ip),
    )[i]).1 != ip by {
        assert(elsewhere(ip)(s.filter(elsewhere(ip))[i]));
    }
}

} // verus!
