//! The hosts of the network, the network identifiers in use, and the messages on their way.
use crate::addr::{IpAddr, Ipv4Addr};
use crate::net;
use crate::net::{Net, NetMessage, NetMessageView, VxlanTeardown};
use crate::seqs;
use crate::services::changes;
use crate::services::host_laws;
use crate::services::laws;
use crate::services::service_info::Services;
use crate::services::world::World;
use vstd::prelude::*;

verus! {

/// The largest network identifier. Identifiers start at one and fit in the two address bytes that
/// tell networks apart.
pub const MAX_NET_ID: u32 = 65535;

/// A message for a host, and the container on that host whose network it is about.
#[derive(Debug)]
pub struct Dispatch {
    pub dest: IpAddr,
    pub docker_container: Option<String>,
    pub message: NetMessage,
}

#[verifier::ext_equal]
pub struct DispatchView {
    pub dest: IpAddr,
    pub docker_container: Option<Seq<char>>,
    pub message: NetMessageView,
}

impl View for Dispatch {
    type V = DispatchView;

    open spec fn view(&self) -> DispatchView {
        DispatchView {
            dest: self.dest,
            docker_container: self.docker_container.deep_view(),
            message: self.message@,
        }
    }
}

impl DeepView for Dispatch {
    type V = DispatchView;

    open spec fn deep_view(&self) -> DispatchView {
        self@
    }
}

/// The state of the orchestrator.
#[verifier::ext_equal]
pub struct OrchestratorView {
    /// The kind of network that is set up between hosts.
    pub net: Net,
    /// The hosts with an open control channel.
    pub clients: Seq<IpAddr>,
    /// The identifiers of the messages that await an acknowledgement.
    pub pending: Seq<Seq<char>>,
    /// The network identifiers in use, in the order of their allocation.
    pub net_ids: Seq<u32>,
    /// The messages to send, oldest first.
    pub outbox: Seq<DispatchView>,
}

/// `id` is the lowest identifier that is not in use.
pub open spec fn is_lowest_free(net_ids: Seq<u32>, id: u32) -> bool {
    &&& 1 <= id <= MAX_NET_ID
    &&& !net_ids.contains(id)
    &&& forall|j: u32| 1 <= j < id ==> #[trigger] net_ids.contains(j)
}

/// The lowest identifier that is not in use; none where all are.
pub open spec fn lowest_free(net_ids: Seq<u32>) -> Option<u32> {
    if exists|id: u32| is_lowest_free(net_ids, id) {
        Some(choose|id: u32| is_lowest_free(net_ids, id))
    } else {
        None
    }
}

/// The lowest free identifier is the only one.
proof fn lemma_lowest_free(net_ids: Seq<u32>, id: u32)
    requires
        is_lowest_free(net_ids, id),
    ensures
        lowest_free(net_ids) == Some(id),
{
    let k = choose|k: u32| is_lowest_free(net_ids, k);
    assert(is_lowest_free(net_ids, k));
    assert(net_ids.contains(k) || k >= id);
    assert(net_ids.contains(id) || id >= k);
}

impl OrchestratorView {
    /// After queueing the message that tears down network `net_id` on host `dest`, which is sent on
    /// VXLANs to hosts with an open control channel.
    pub open spec fn teardown_to(
        self,
        dest: IpAddr,
        docker_container: Option<Seq<char>>,
        net_id: u32,
    ) -> OrchestratorView {
        if self.net == Net::Vxlan && self.clients.contains(dest) {
            OrchestratorView {
                outbox: self.outbox.push(
                    DispatchView {
                        dest,
                        docker_container,
                        message: NetMessageView::VxlanTeardown {
                            ns_name: net::ns_name(net_id),
                            br_name: net::br_name(net_id),
                        },
                    },
                ),
                ..self
            }
        } else {
            self
        }
    }

    /// After freeing network `net_id` and tearing it down on the server's and the client's host.
    pub open spec fn teardown(
        self,
        client_ip: IpAddr,
        client_docker: Option<Seq<char>>,
        server_ip: IpAddr,
        server_docker: Option<Seq<char>>,
        net_id: u32,
    ) -> OrchestratorView {
        (OrchestratorView { net_ids: seqs::without(self.net_ids, net_id), ..self }).teardown_to(
            server_ip,
            server_docker,
            net_id,
        ).teardown_to(client_ip, client_docker, net_id)
    }

    /// After asking host `dest`, where its control channel is open, to set up its end of network
    /// `net_id` under message `msg_id`.
    pub open spec fn setup(
        self,
        msg_id: Seq<char>,
        dest: IpAddr,
        server_name: Option<Seq<char>>,
        net_id: u32,
        remote: IpAddr,
        docker_container: Option<Seq<char>>,
    ) -> OrchestratorView {
        if self.clients.contains(dest) {
            OrchestratorView {
                pending: seqs::with(self.pending, msg_id),
                outbox: self.outbox.push(
                    DispatchView {
                        dest,
                        docker_container,
                        message: self.net.setup_message(msg_id, dest, server_name, net_id, remote),
                    },
                ),
                ..self
            }
        } else {
            self
        }
    }

    /// After a host opened its control channel.
    pub open spec fn connected(self, ip: IpAddr) -> OrchestratorView {
        OrchestratorView { clients: seqs::with(self.clients, ip), ..self }
    }

    /// After a host closed its control channel.
    pub open spec fn disconnected(self, ip: IpAddr) -> OrchestratorView {
        OrchestratorView { clients: seqs::without(self.clients, ip), ..self }
    }

    /// After message `msg_id` stopped awaiting an acknowledgement.
    pub open spec fn settled(self, msg_id: Seq<char>) -> OrchestratorView {
        OrchestratorView { pending: seqs::without(self.pending, msg_id), ..self }
    }

    /// After network identifier `id` was taken into use.
    pub open spec fn allocated(self, id: u32) -> OrchestratorView {
        OrchestratorView { net_ids: self.net_ids.push(id), ..self }
    }
}

/// Keeps track of the hosts that can be reached and of the networks between them.
#[derive(Debug)]
pub struct Orchestrator {
    net: Net,
    clients: Vec<IpAddr>,
    pending: Vec<String>,
    net_ids: Vec<u32>,
    outbox: Vec<Dispatch>,
}

impl View for Orchestrator {
    type V = OrchestratorView;

    closed spec fn view(&self) -> OrchestratorView {
        OrchestratorView {
            net: self.net,
            clients: self.clients@,
            pending: self.pending.deep_view(),
            net_ids: self.net_ids@,
            outbox: self.outbox.deep_view(),
        }
    }
}

impl Orchestrator {
    /// An orchestrator without hosts that sets up networks of kind `net`.
    pub fn new(net: Net) -> (r: Self)
        ensures
            r@ == (OrchestratorView {
                net,
                clients: Seq::empty(),
                pending: Seq::empty(),
                net_ids: Seq::empty(),
                outbox: Seq::empty(),
            }),
    {
        let r = Orchestrator {
            net,
            clients: Vec::new(),
            pending: Vec::new(),
            net_ids: Vec::new(),
            outbox: Vec::new(),
        };
        assert(r@ =~= (OrchestratorView {
            net,
            clients: Seq::empty(),
            pending: Seq::empty(),
            net_ids: Seq::empty(),
            outbox: Seq::empty(),
        }));
        r
    }

    /// The kind of network that is set up between hosts.
    pub fn net(&self) -> (r: Net)
        ensures
            r == self@.net,
    {
        self.net
    }

    fn find_client(&self, ip: &IpAddr) -> (r: Option<usize>)
        ensures
            match r {
                Some(i) => seqs::is_first_at(self@.clients, *ip, i as int),
                None => !self@.clients.contains(*ip),
            },
    {
        let mut i: usize = 0;
        while i < self.clients.len()
            invariant
                i <= self.clients.len(),
                self@.clients == self.clients@,
                forall|j: int| 0 <= j < i ==> #[trigger] self@.clients[j] != *ip,
            decreases self.clients.len() - i,
        {
            if self.clients[i] == *ip {
                return Some(i);
            }
            i = i + 1;
        }
        None
    }

    /// Whether the host has an open control channel.
    pub fn is_connected(&self, ip: IpAddr) -> (r: bool)
        ensures
            r == self@.clients.contains(ip),
    {
        self.find_client(&ip).is_some()
    }

    /// Records that a host opened its control channel.
    pub fn add_client(&mut self, client_ip: IpAddr)
        ensures
            final(self)@ == old(self)@.connected(client_ip),
            final(self)@.clients.contains(client_ip),
    {
        if !self.is_connected(client_ip) {
            self.clients.push(client_ip);
            assert(self@.clients[old(self)@.clients.len() as int] == client_ip);
        }
        assert(self@ =~= old(self)@.connected(client_ip));
    }

    /// Records that a host closed its control channel.
    pub fn remove_client(&mut self, ip: &IpAddr)
        ensures
            final(self)@ == old(self)@.disconnected(*ip),
            old(self)@.clients.no_duplicates() ==> !final(self)@.clients.contains(*ip),
    {
        match self.find_client(ip) {
            Some(i) => {
                proof {
                    seqs::lemma_without(self@.clients, *ip, i as int);
                }
                self.clients.remove(i);
            },
            None => {},
        }
        assert(self@ =~= old(self)@.disconnected(*ip));
        proof {
            laws::lemma_without_contains(old(self)@.clients, *ip);
        }
    }

    fn find_pending(&self, id: &String) -> (r: Option<usize>)
        ensures
            match r {
                Some(i) => seqs::is_first_at(self@.pending, id@, i as int),
                None => !self@.pending.contains(id@),
            },
    {
        let mut i: usize = 0;
        while i < self.pending.len()
            invariant
                i <= self.pending.len(),
                self@.pending == self.pending.deep_view(),
                forall|j: int| 0 <= j < i ==> #[trigger] self@.pending[j] != id@,
            decreases self.pending.len() - i,
        {
            if self.pending[i] == *id {
                assert(self@.pending[i as int] == id@);
                return Some(i);
            }
            i = i + 1;
        }
        None
    }

    /// Takes message `id` off the pending list, because it was acknowledged or will not be, and
    /// says whether it was on it.
    pub fn settle(&mut self, id: &String) -> (r: bool)
        ensures
            r == old(self)@.pending.contains(id@),
            final(self)@ == old(self)@.settled(id@),
    {
        let found = self.find_pending(id);
        match found {
            Some(i) => {
                proof {
                    seqs::lemma_without(self@.pending, id@, i as int);
                    assert(self@.pending[i as int] == id@);
                }
                self.pending.remove(i);
                assert(self@.pending =~= old(self)@.pending.remove(i as int));
                true
            },
            None => false,
        }
    }

    /// Takes the lowest free network identifier into use; none where all are in use.
    pub fn allocate_net_id(&mut self) -> (r: Option<u32>)
        ensures
            r == lowest_free(old(self)@.net_ids),
            final(self)@ == (match r {
                Some(id) => old(self)@.allocated(id),
                None => old(self)@,
            }),
    {
        let used = self.used_ids();
        let mut id: u32 = 1;
        while id <= MAX_NET_ID
            invariant
                1 <= id <= MAX_NET_ID + 1,
                self@ == old(self)@,
                used@.len() == MAX_NET_ID + 1,
                forall|j: int| 0 <= j < used@.len() ==> #[trigger] used@[j]
                    == self@.net_ids.contains(j as u32),
                forall|j: u32| 1 <= j < id ==> #[trigger] self@.net_ids.contains(j),
            decreases MAX_NET_ID + 1 - id,
        {
            assert(used@[id as int] == self@.net_ids.contains(id));
            if !used[id as usize] {
                proof {
                    lemma_lowest_free(self@.net_ids, id);
                }
                self.net_ids.push(id);
                assert(self@ =~= old(self)@.allocated(id));
                return Some(id);
            }
            id = id + 1;
        }
        None
    }

    /// Which identifiers are in use, by identifier.
    fn used_ids(&self) -> (used: Vec<bool>)
        ensures
            used@.len() == MAX_NET_ID + 1,
            forall|j: int| 0 <= j < used@.len() ==> #[trigger] used@[j]
                == self@.net_ids.contains(j as u32),
    {
        let mut used: Vec<bool> = Vec::new();
        let mut i: u32 = 0;
        while i <= MAX_NET_ID
            invariant
                i <= MAX_NET_ID + 1,
                used@.len() == i,
                forall|j: int| 0 <= j < used@.len() ==> !(#[trigger] used@[j]),
            decreases MAX_NET_ID + 1 - i,
        {
            used.push(false);
            i = i + 1;
        }
        let mut k: usize = 0;
        while k < self.net_ids.len()
            invariant
                k <= self.net_ids.len(),
                self@.net_ids == self.net_ids@,
                used@.len() == MAX_NET_ID + 1,
                forall|j: int| 0 <= j < used@.len() ==> #[trigger] used@[j]
                    == self.net_ids@.take(k as int).contains(j as u32),
            decreases self.net_ids.len() - k,
        {
            let id = self.net_ids[k];
            let ghost before = used@;
            let ghost old_ids = self.net_ids@.take(k as int);
            let ghost new_ids = self.net_ids@.take(k + 1);
            proof {
                assert(new_ids =~= old_ids.push(id));
                assert forall|x: u32| #[trigger] new_ids.contains(x) == (old_ids.contains(x) || x
                    == id) by {
                    if old_ids.contains(x) {
                        let w = choose|w: int| 0 <= w < old_ids.len() && old_ids[w] == x;
                        assert(new_ids[w] == x);
                    }
                    if x == id {
                        assert(new_ids[k as int] == x);
                    }
                }
            }
            if id <= MAX_NET_ID {
                used[id as usize] = true;
            }
            k = k + 1;
        }
        assert(self.net_ids@.take(k as int) =~= self.net_ids@);
        used
    }

    /// The number of network identifiers in use.
    pub fn net_ids_in_use(&self) -> (r: usize)
        ensures
            r == self@.net_ids.len(),
    {
        self.net_ids.len()
    }

    fn free_net_id(&mut self, net_id: u32)
        ensures
            final(self)@ == (OrchestratorView {
                net_ids: seqs::without(old(self)@.net_ids, net_id),
                ..old(self)@
            }),
    {
        let mut i: usize = 0;
        while i < self.net_ids.len()
            invariant
                i <= self.net_ids.len(),
                *self == *old(self),
                forall|j: int| 0 <= j < i ==> #[trigger] self.net_ids@[j] != net_id,
            decreases self.net_ids.len() - i,
        {
            if self.net_ids[i] == net_id {
                proof {
                    seqs::lemma_without(self.net_ids@, net_id, i as int);
                }
                self.net_ids.remove(i);
                return;
            }
            i = i + 1;
        }
    }

    /// Asks host `dest` to set up its end of network `net_id`, under message `msg_id`. Gives the
    /// address that goes with the set-up, or nothing where the host has no open control channel.
    pub fn send_net_setup(
        &mut self,
        msg_id: String,
        dest: IpAddr,
        remote_server_name: Option<String>,
        net_id: u32,
        remote: IpAddr,
        docker_container: Option<String>,
    ) -> (r: Option<Ipv4Addr>)
        ensures
            r == (if old(self)@.clients.contains(dest) {
                Some(old(self)@.net.setup_addr(remote_server_name is Some, net_id))
            } else {
                None
            }),
            final(self)@ == old(self)@.setup(
                msg_id@,
                dest,
                remote_server_name.deep_view(),
                net_id,
                remote,
                docker_container.deep_view(),
            ),
    {
        if !self.is_connected(dest) {
            return None;
        }
        let (addr, message) = match self.net.setup(
            msg_id.clone(),
            dest,
            remote_server_name,
            net_id,
            remote,
        ) {
            Some(setup) => setup,
            None => return None,
        };
        if self.find_pending(&msg_id).is_none() {
            self.pending.push(msg_id);
        }
        self.outbox.push(Dispatch { dest, docker_container, message });
        assert(self@ =~= old(self)@.setup(
            msg_id@,
            dest,
            remote_server_name.deep_view(),
            net_id,
            remote,
            docker_container.deep_view(),
        ));
        Some(addr)
    }

    fn send_teardown_to(&mut self, dest: IpAddr, docker_container: Option<String>, net_id: u32)
        ensures
            final(self)@ == old(self)@.teardown_to(dest, docker_container.deep_view(), net_id),
    {
        if self.net == Net::Vxlan && self.is_connected(dest) {
            let message = NetMessage::VxlanTeardown(
                VxlanTeardown {
                    ns_name: net::ns_name_of(net_id),
                    br_name: net::br_name_of(net_id),
                },
            );
            self.outbox.push(Dispatch { dest, docker_container, message });
            assert(self@ =~= old(self)@.teardown_to(dest, docker_container.deep_view(), net_id));
        }
    }

    /// Frees network `net_id` and asks its two hosts to tear it down.
    pub fn send_net_teardown(
        &mut self,
        client_ip: IpAddr,
        client_docker: Option<String>,
        server_ip: IpAddr,
        server_docker: Option<String>,
        net_id: u32,
    )
        ensures
            final(self)@ == old(self)@.teardown(
                client_ip,
                client_docker.deep_view(),
                server_ip,
                server_docker.deep_view(),
                net_id,
            ),
    {
        self.free_net_id(net_id);
        self.send_teardown_to(server_ip, server_docker, net_id);
        self.send_teardown_to(client_ip, client_docker, net_id);
    }

    /// Brings the services and networks in line with the loss of a host.
    pub fn handle_node_disconnect(&mut self, client_ip: IpAddr, services: &mut Services)
        ensures
            (World { services: final(services)@, orch: final(self)@ }) == (World {
                services: old(services)@,
                orch: old(self)@.disconnected(client_ip),
            }).apply_all(changes::disconnect_changes(old(services)@, client_ip)),
            final(self)@.clients == old(self)@.disconnected(client_ip).clients,
            old(self)@.clients.no_duplicates() ==> !final(self)@.clients.contains(client_ip),
    {
        proof {
            host_laws::law_changes_keep_hosts(
                World { services: services@, orch: self@.disconnected(client_ip) },
                changes::disconnect_changes(services@, client_ip),
            );
        }
        self.remove_client(&client_ip);
        let lost = changes::detect_node_disconnect_changes(services, client_ip);
        changes::apply_changes(lost, services, None, self);
    }

    /// Hands out the queued messages, oldest first.
    pub fn take_outbox(&mut self) -> (r: Vec<Dispatch>)
        ensures
            r.deep_view() == old(self)@.outbox,
            final(self)@ == (OrchestratorView { outbox: Seq::empty(), ..old(self)@ }),
    {
        let mut r: Vec<Dispatch> = Vec::new();
        std::mem::swap(&mut r, &mut self.outbox);
        assert(self@.outbox =~= Seq::empty());
        r
    }
}

/// A lower-case hexadecimal digit.
pub open spec fn is_hex_digit(c: char) -> bool {
    '0' <= c <= '9' || 'a' <= c <= 'f'
}

/// The written form of a random identifier: groups of 8, 4, 4, 4 and 12 hexadecimal digits, joined by
/// hyphens, the third of which starts with the digit of the version and the fourth with one of the
/// four digits of the variant.
pub open spec fn is_message_id(s: Seq<char>) -> bool {
    &&& s.len() == 36
    &&& forall|i: int|
        0 <= i < 36 ==> if i == 8 || i == 13 || i == 18 || i == 23 {
            #[trigger] s[i] == '-'
        } else {
            is_hex_digit(s[i])
        }
    &&& s[14] == '4'
    &&& s[19] == '8' || s[19] == '9' || s[19] == 'a' || s[19] == 'b'
}

/// `uuid::Uuid::new_v4`, written out by its `Display`: a random identifier in the hyphenated
/// lower-case form, of version 4 and the standard variant. Two identifiers are distinct with
/// overwhelming probability, which is not stated.
#[verifier::external_body]
pub(crate) fn new_message_id() -> (r: String)
    ensures
        is_message_id(r@),
{
    uuid::Uuid::new_v4().to_string()
}

} // verus!
