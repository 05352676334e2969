use std::collections::{HashMap, HashSet};
use vstd::hash_map::StringHashMap;
use vstd::prelude::*;

verus! {

broadcast use {vstd::std_specs::hash::group_hash_axioms, vstd::hash_map::group_hash_map_axioms};

pub type ChannelId = u32;

pub type ClientId = u32;

pub type ServerId = u32;

pub type SubnetId = u32;

/// What `str::to_lowercase` gives for a string; std's Unicode case tables are not
/// restated here.
pub uninterp spec fn lowercase(s: Seq<char>) -> Seq<char>;

/// Calls `str::to_lowercase`: its result depends on the characters alone, and is the
/// value `lowercase` names for them.
#[verifier::external_body]
fn to_lowercase(s: &str) -> (res: String)
    ensures
        res@ == lowercase(s@),
{
    s.to_lowercase()
}

pub struct Channel {
    pub id: ChannelId,
    pub subnet: SubnetId,
    pub name: String,
    pub topic: String,
    pub members: HashMap<ClientId, Membership>,
}

pub struct Membership {
    pub has_op: bool,
}

pub struct Client {
    pub id: ClientId,
    pub server: ServerId,
    pub subnet: SubnetId,
    pub nick: String,
    pub lnick: String,
    pub ident: String,
    pub host: String,
    pub gecos: String,
    pub channels: HashSet<ChannelId>,
}

pub struct Server {
    pub id: ServerId,
    pub name: String,
    pub lname: String,
    pub link: Option<Link>,
    pub clients: HashSet<ClientId>,
    pub downlinks: HashSet<ServerId>,
}

#[derive(Copy, Clone)]
pub struct Link {
    pub hub: ServerId,
    pub route: ServerId,
}

pub struct Subnet {
    pub id: SubnetId,
    pub name: String,
    pub lname: String,
    pub clients: HashSet<ClientId>,
    pub clients_by_lnick: StringHashMap<ClientId>,
    pub channels_by_lname: StringHashMap<ChannelId>,
}

#[derive(Debug)]
pub enum Error {
    NickAlreadyInUse(ClientId),
    SubnetNameAlreadyInUse(SubnetId),
    ServerNameAlreadyExists(ServerId),
}

/// State of an IRC network: clients, servers, channels and subnets, each under an id.
pub struct State {
    next_client_id: ClientId,
    next_server_id: ServerId,
    next_channel_id: ChannelId,
    next_subnet_id: SubnetId,
    clients: HashMap<ClientId, Client>,
    servers: HashMap<ServerId, Server>,
    servers_by_lname: StringHashMap<ServerId>,
    channels: HashMap<ChannelId, Channel>,
    subnets: HashMap<SubnetId, Subnet>,
    subnets_by_lname: StringHashMap<SubnetId>,
}

/// Two maps hold the same entries, but for the one at `k`.
pub open spec fn same_except<V>(a: Map<u32, V>, b: Map<u32, V>, k: u32) -> bool {
    &&& a.dom() == b.dom()
    &&& forall|j: u32| #[trigger] a.contains_key(j) && j != k ==> a[j] == b[j]
}

/// A subnet after a client joined it under the lower-case nick `l`.
pub open spec fn subnet_gains(a: Subnet, b: Subnet, l: Seq<char>, id: ClientId) -> bool {
    &&& b.id == a.id
    &&& b.name@ == a.name@
    &&& b.lname@ == a.lname@
    &&& b.clients@ == a.clients@.insert(id)
    &&& b.clients_by_lnick@ == a.clients_by_lnick@.insert(l, id)
    &&& b.channels_by_lname@ == a.channels_by_lname@
}

/// A subnet after a client under the lower-case nick `l` left it.
pub open spec fn subnet_loses(a: Subnet, b: Subnet, l: Seq<char>, id: ClientId) -> bool {
    &&& b.id == a.id
    &&& b.name@ == a.name@
    &&& b.lname@ == a.lname@
    &&& b.clients@ == a.clients@.remove(id)
    &&& b.clients_by_lnick@ == a.clients_by_lnick@.remove(l)
    &&& b.channels_by_lname@ == a.channels_by_lname@
}

/// A server after a client came to it.
pub open spec fn server_gains(a: Server, b: Server, id: ClientId) -> bool {
    &&& b.id == a.id
    &&& b.name@ == a.name@
    &&& b.lname@ == a.lname@
    &&& b.link == a.link
    &&& b.clients@ == a.clients@.insert(id)
    &&& b.downlinks@ == a.downlinks@
}

/// A server after a client left it.
pub open spec fn server_loses(a: Server, b: Server, id: ClientId) -> bool {
    &&& b.id == a.id
    &&& b.name@ == a.name@
    &&& b.lname@ == a.lname@
    &&& b.link == a.link
    &&& b.clients@ == a.clients@.remove(id)
    &&& b.downlinks@ == a.downlinks@
}

/// A server after another server was linked below it.
pub open spec fn server_adopts(a: Server, b: Server, id: ServerId) -> bool {
    &&& b.id == a.id
    &&& b.name@ == a.name@
    &&& b.lname@ == a.lname@
    &&& b.link == a.link
    &&& b.clients@ == a.clients@
    &&& b.downlinks@ == a.downlinks@.insert(id)
}

impl State {
    pub closed spec fn clients(&self) -> Map<ClientId, Client> {
        self.clients@
    }

    pub closed spec fn servers(&self) -> Map<ServerId, Server> {
        self.servers@
    }

    pub closed spec fn subnets(&self) -> Map<SubnetId, Subnet> {
        self.subnets@
    }

    pub closed spec fn channels(&self) -> Map<ChannelId, Channel> {
        self.channels@
    }

    /// Server ids by lower-case name.
    pub closed spec fn server_names(&self) -> Map<Seq<char>, ServerId> {
        self.servers_by_lname@
    }

    /// Subnet ids by lower-case name.
    pub closed spec fn subnet_names(&self) -> Map<Seq<char>, SubnetId> {
        self.subnets_by_lname@
    }

    /// The tables are finite.
    pub proof fn lemma_finite(&self)
        ensures
            self.clients().dom().finite(),
            self.servers().dom().finite(),
            self.subnets().dom().finite(),
            self.channels().dom().finite(),
    {
    }

    pub closed spec fn next_client_id(&self) -> ClientId {
        self.next_client_id
    }

    pub closed spec fn next_server_id(&self) -> ServerId {
        self.next_server_id
    }

    pub closed spec fn next_subnet_id(&self) -> SubnetId {
        self.next_subnet_id
    }

    pub closed spec fn next_channel_id(&self) -> ChannelId {
        self.next_channel_id
    }

    pub open spec fn client_ok(&self, k: ClientId) -> bool {
        let c = self.clients()[k];
        &&& c.id == k
        &&& k < self.next_client_id()
        &&& self.subnets().contains_key(c.subnet)
        &&& self.servers().contains_key(c.server)
        &&& self.servers()[c.server].clients@.contains(k)
        &&& self.subnets()[c.subnet].clients@.contains(k)
        &&& self.subnets()[c.subnet].clients_by_lnick@.contains_key(c.lnick@)
        &&& self.subnets()[c.subnet].clients_by_lnick@[c.lnick@] == k
    }

    pub open spec fn subnet_ok(&self, k: SubnetId) -> bool {
        let s = self.subnets()[k];
        &&& s.id == k
        &&& k < self.next_subnet_id()
        &&& forall|l: Seq<char>|
            #[trigger] s.clients_by_lnick@.contains_key(l) ==> {
                let c = s.clients_by_lnick@[l];
                &&& self.clients().contains_key(c)
                &&& self.clients()[c].lnick@ == l
                &&& self.clients()[c].subnet == k
            }
        &&& forall|c: ClientId|
            #[trigger] s.clients@.contains(c) ==> self.clients().contains_key(c)
                && self.clients()[c].subnet == k
    }

    pub open spec fn server_ok(&self, k: ServerId) -> bool {
        let s = self.servers()[k];
        &&& s.id == k
        &&& k < self.next_server_id()
        &&& k == 0 ==> s.link is None
        &&& k != 0 ==> {
            &&& s.link is Some
            &&& self.servers().contains_key(s.link->0.hub)
            &&& s.link->0.hub < k
            &&& self.servers()[s.link->0.hub].downlinks@.contains(k)
        }
        &&& forall|d: ServerId|
            #[trigger] s.downlinks@.contains(d) ==> {
                &&& self.servers().contains_key(d)
                &&& k < d
                &&& self.servers()[d].link matches Some(l) && l.hub == k
            }
        &&& forall|c: ClientId|
            #[trigger] s.clients@.contains(c) ==> self.clients().contains_key(c)
                && self.clients()[c].server == k
    }

    /// The state's invariant: ids match their keys and are below the next id to hand
    /// out, the name indexes point at entries of that name, every client is found
    /// under its nick in its subnet and among its server's clients, and servers form a
    /// tree below the local one, each linked under a hub of smaller id.
    pub open spec fn wf(&self) -> bool {
        &&& forall|k: ClientId| #[trigger] self.clients().contains_key(k) ==> self.client_ok(k)
        &&& forall|k: SubnetId| #[trigger] self.subnets().contains_key(k) ==> self.subnet_ok(k)
        &&& forall|k: ServerId| #[trigger] self.servers().contains_key(k) ==> self.server_ok(k)
        &&& forall|l: Seq<char>|
            #[trigger] self.subnet_names().contains_key(l) ==> {
                &&& self.subnets().contains_key(self.subnet_names()[l])
                &&& self.subnets()[self.subnet_names()[l]].lname@ == l
            }
        &&& forall|l: Seq<char>|
            #[trigger] self.server_names().contains_key(l) ==> {
                &&& self.server_names()[l] < self.next_server_id()
                &&& self.servers().contains_key(self.server_names()[l])
                    ==> self.servers()[self.server_names()[l]].lname@ == l
            }
    }

    /// The empty network around the local server, which gets id 0.
    pub fn new(server_name: String) -> (res: State)
        ensures
            res.wf(),
            res.clients().is_empty(),
            res.subnets().is_empty(),
            res.channels().is_empty(),
            res.servers().dom() == set![0u32],
            res.servers()[0].name@ == server_name@,
            res.servers()[0].lname@ == lowercase(server_name@),
            res.servers()[0].clients@.is_empty(),
            res.servers()[0].downlinks@.is_empty(),
            res.server_names() == map![lowercase(server_name@) => 0u32],
            res.subnet_names().is_empty(),
            res.next_server_id() == 1,
            res.next_client_id() == 0,
            res.next_subnet_id() == 0,
            res.next_channel_id() == 0,
    {
        let mut state = State {
            next_server_id: 1,
            next_channel_id: 0,
            next_client_id: 0,
            next_subnet_id: 0,
            channels: HashMap::new(),
            clients: HashMap::new(),
            servers: HashMap::new(),
            servers_by_lname: StringHashMap::new(),
            subnets: HashMap::new(),
            subnets_by_lname: StringHashMap::new(),
        };
        let lname = to_lowercase(server_name.as_str());
        let server = Server {
            id: 0,
            lname,
            name: server_name,
            link: None,
            clients: HashSet::new(),
            downlinks: HashSet::new(),
        };
        state.servers_by_lname.insert(server.lname.clone(), server.id);
        state.servers.insert(server.id, server);
        assert(state.servers@.dom() =~= set![0u32]);
        assert(state.servers_by_lname@ =~= map![lowercase(server_name@) => 0u32]);
        state
    }
}

impl State {
    pub fn client_by_id(&self, id: ClientId) -> (res: &Client)
        requires
            self.clients().contains_key(id),
        ensures
            *res == self.clients()[id],
    {
        self.clients.get(&id).unwrap()
    }
}


/// What `client_add` leaves behind when it added client `id`.
pub open spec fn client_added(
    old: &State,
    new: &State,
    id: ClientId,
    nick: Seq<char>,
    ident: Seq<char>,
    host: Seq<char>,
    gecos: Seq<char>,
    server: ServerId,
    subnet: SubnetId,
) -> bool {
    let l = lowercase(nick);
    let c = new.clients()[id];
    &&& id == old.next_client_id()
    &&& new.next_client_id() == id + 1
    &&& new.clients() == old.clients().insert(id, c)
    &&& c.id == id && c.server == server && c.subnet == subnet
    &&& c.nick@ == nick && c.lnick@ == l && c.ident@ == ident && c.host@ == host && c.gecos@ == gecos
    &&& c.channels@.is_empty()
    &&& same_except(old.subnets(), new.subnets(), subnet)
    &&& subnet_gains(old.subnets()[subnet], new.subnets()[subnet], l, id)
    &&& same_except(old.servers(), new.servers(), server)
    &&& server_gains(old.servers()[server], new.servers()[server], id)
    &&& new.channels() == old.channels()
    &&& new.server_names() == old.server_names()
    &&& new.subnet_names() == old.subnet_names()
    &&& new.next_server_id() == old.next_server_id()
    &&& new.next_subnet_id() == old.next_subnet_id()
    &&& new.next_channel_id() == old.next_channel_id()
}

/// What `State::client_add` leaves behind, for each result.
pub open spec fn client_add_result(
    old: &State,
    new: &State,
    nick: Seq<char>,
    ident: Seq<char>,
    host: Seq<char>,
    gecos: Seq<char>,
    server: ServerId,
    subnet: SubnetId,
    res: Result<ClientId, Error>,
) -> bool {
    match res {
        Err(e) => {
            let taken = old.subnets()[subnet].clients_by_lnick@;
            &&& taken.contains_key(lowercase(nick))
            &&& e == Error::NickAlreadyInUse(taken[lowercase(nick)])
            &&& *new == *old
        },
        Ok(id) => {
            &&& !old.subnets()[subnet].clients_by_lnick@.contains_key(
                lowercase(nick),
            )
            &&& client_added(
                old,
                new,
                id,
                nick,
                ident,
                host,
                gecos,
                server,
                subnet,
            )
        },
    }
}

/// What `State::subnet_add` leaves behind, for each result.
pub open spec fn subnet_add_result(
    old: &State,
    new: &State,
    name: Seq<char>,
    res: Result<SubnetId, Error>,
) -> bool {
    match res {
        Err(e) => {
            &&& old.subnet_names().contains_key(name)
            &&& e == Error::SubnetNameAlreadyInUse(old.subnet_names()[name])
            &&& *new == *old
        },
        Ok(id) => {
            let s = new.subnets()[id];
            &&& !old.subnet_names().contains_key(name)
            &&& id == old.next_subnet_id()
            &&& new.next_subnet_id() == id + 1
            &&& new.subnets() == old.subnets().insert(id, s)
            &&& s.id == id && s.name@ == name && s.lname@ == lowercase(name)
            &&& s.clients@.is_empty() && s.clients_by_lnick@.is_empty()
                && s.channels_by_lname@.is_empty()
            &&& new.subnet_names() == old.subnet_names().insert(
                lowercase(name),
                id,
            )
            &&& new.clients() == old.clients()
            &&& new.servers() == old.servers()
            &&& new.channels() == old.channels()
            &&& new.server_names() == old.server_names()
            &&& new.next_client_id() == old.next_client_id()
            &&& new.next_server_id() == old.next_server_id()
            &&& new.next_channel_id() == old.next_channel_id()
        },
    }
}

/// What `State::server_add` leaves behind, for each result.
pub open spec fn server_add_result(
    old: &State,
    new: &State,
    name: Seq<char>,
    hub: ServerId,
    res: Result<ServerId, Error>,
) -> bool {
    match res {
        Err(e) => {
            &&& old.server_names().contains_key(lowercase(name))
            &&& e == Error::ServerNameAlreadyExists(
                old.server_names()[lowercase(name)],
            )
            &&& *new == *old
        },
        Ok(id) => {
            let s = new.servers()[id];
            let route = match old.servers()[hub].link {
                Some(l) => l.route,
                None => id,
            };
            &&& !old.server_names().contains_key(lowercase(name))
            &&& id == old.next_server_id()
            &&& new.next_server_id() == id + 1
            &&& s.id == id && s.name@ == name && s.lname@ == lowercase(name)
            &&& s.link == Some(Link { hub, route })
            &&& s.clients@.is_empty() && s.downlinks@.is_empty()
            &&& new.servers().dom() == old.servers().dom().insert(id)
            &&& forall|k: ServerId|
                #[trigger] old.servers().contains_key(k) && k != hub
                    ==> new.servers()[k] == old.servers()[k]
            &&& server_adopts(old.servers()[hub], new.servers()[hub], id)
            &&& new.server_names() == old.server_names().insert(
                lowercase(name),
                id,
            )
            &&& new.clients() == old.clients()
            &&& new.subnets() == old.subnets()
            &&& new.channels() == old.channels()
            &&& new.subnet_names() == old.subnet_names()
            &&& new.next_client_id() == old.next_client_id()
            &&& new.next_subnet_id() == old.next_subnet_id()
            &&& new.next_channel_id() == old.next_channel_id()
        },
    }
}

impl State {
    /// Looks a client up by lower-case nick within a subnet.
    pub fn client_by_nick(&self, subnet: SubnetId, lnick: &str) -> (res: Option<ClientId>)
        requires
            self.subnets().contains_key(subnet),
        ensures
            res == (if self.subnets()[subnet].clients_by_lnick@.contains_key(lnick@) {
                Some(self.subnets()[subnet].clients_by_lnick@[lnick@])
            } else {
                None
            }),
    {
        match self.subnet_by_id(subnet).clients_by_lnick.get(lnick) {
            Some(id) => Some(*id),
            None => None,
        }
    }

    /// Adds a client unless its nick, compared in lower case, is taken in the subnet.
    pub fn client_add(
        &mut self,
        nick: String,
        ident: String,
        host: String,
        gecos: String,
        server: ServerId,
        subnet: SubnetId,
    ) -> (res: Result<ClientId, Error>)
        requires
            old(self).wf(),
            old(self).subnets().contains_key(subnet),
            old(self).servers().contains_key(server),
            old(self).next_client_id() < u32::MAX,
        ensures
            final(self).wf(),
            client_add_result(
                old(self),
                final(self),
                nick@,
                ident@,
                host@,
                gecos@,
                server,
                subnet,
                res,
            ),
    {
        let id = self.next_client_id;
        let lnick = to_lowercase(nick.as_str());
        match self.subnets.get(&subnet).unwrap().clients_by_lnick.get(lnick.as_str()) {
            Some(existing) => {
                return Err(Error::NickAlreadyInUse(*existing));
            },
            None => {},
        }
        let client = Client {
            id,
            server,
            subnet,
            lnick,
            nick,
            ident,
            host,
            gecos,
            channels: HashSet::new(),
        };
        let ghost old_subnet = self.subnets@[subnet];
        let ghost old_server = self.servers@[server];
        let mut sn = self.subnets.remove(&subnet).unwrap();
        sn.clients.insert(id);
        sn.clients_by_lnick.insert(client.lnick.clone(), id);
        self.subnets.insert(subnet, sn);
        let mut sv = self.servers.remove(&server).unwrap();
        sv.clients.insert(id);
        self.servers.insert(server, sv);
        self.clients.insert(id, client);
        self.next_client_id = id + 1;
        proof {
            assert(self.subnets@.dom() =~= old(self).subnets@.dom());
            assert(self.servers@.dom() =~= old(self).servers@.dom());
            assert forall|k: ClientId| #[trigger] self.clients().contains_key(k) implies self.client_ok(k) by {
                if k != id {
                    assert(old(self).client_ok(k));
                }
            }
            assert forall|k: SubnetId| #[trigger] self.subnets().contains_key(k) implies self.subnet_ok(k) by {
                assert(old(self).subnet_ok(k));
                let s = self.subnets()[k];
                assert forall|l: Seq<char>| #[trigger] s.clients_by_lnick@.contains_key(l) implies {
                    let c = s.clients_by_lnick@[l];
                    &&& self.clients().contains_key(c)
                    &&& self.clients()[c].lnick@ == l
                    &&& self.clients()[c].subnet == k
                } by {
                    if k == subnet && l == client.lnick@ {
                    } else {
                        assert(old(self).subnets()[k].clients_by_lnick@.contains_key(l));
                        let c = s.clients_by_lnick@[l];
                        assert(old(self).clients().contains_key(c));
                        assert(c != id);
                    }
                }
            }
            assert forall|k: ServerId| #[trigger] self.servers().contains_key(k) implies self.server_ok(k) by {
                assert(old(self).server_ok(k));
                let s = self.servers()[k];
                if k != 0 {
                    let h = s.link->0.hub;
                    assert(old(self).servers().contains_key(h));
                }
                assert forall|d: ServerId| #[trigger] s.downlinks@.contains(d) implies {
                    &&& self.servers().contains_key(d)
                    &&& k < d
                    &&& self.servers()[d].link matches Some(l) && l.hub == k
                } by {
                    assert(old(self).servers()[k].downlinks@.contains(d));
                }
            }
            assert forall|l: Seq<char>| #[trigger] self.subnet_names().contains_key(l) implies {
                &&& self.subnets().contains_key(self.subnet_names()[l])
                &&& self.subnets()[self.subnet_names()[l]].lname@ == l
            } by {
                assert(old(self).subnets().contains_key(old(self).subnet_names()[l]));
            }
            assert forall|l: Seq<char>| #[trigger] self.server_names().contains_key(l) implies {
                &&& self.server_names()[l] < self.next_server_id()
                &&& self.servers().contains_key(self.server_names()[l])
                    ==> self.servers()[self.server_names()[l]].lname@ == l
            } by {
                assert(old(self).server_names().contains_key(l));
            }
        }
        Ok(id)
    }
}


impl State {
    pub fn channel_by_id(&self, id: ChannelId) -> (res: &Channel)
        requires
            self.channels().contains_key(id),
        ensures
            *res == self.channels()[id],
    {
        self.channels.get(&id).unwrap()
    }

    /// Removing a member from a channel is not implemented yet: nothing changes.
    pub fn channel_remove_member(&mut self, id: ChannelId, member_id: ClientId)
        ensures
            *final(self) == *old(self),
    {
    }

    pub fn subnet_by_id(&self, id: SubnetId) -> (res: &Subnet)
        requires
            self.subnets().contains_key(id),
        ensures
            *res == self.subnets()[id],
    {
        self.subnets.get(&id).unwrap()
    }

    /// Looks a subnet up by lower-case name.
    pub fn subnet_by_name(&self, lname: &str) -> (res: Option<SubnetId>)
        ensures
            res == (if self.subnet_names().contains_key(lname@) {
                Some(self.subnet_names()[lname@])
            } else {
                None
            }),
    {
        match self.subnets_by_lname.get(lname) {
            Some(id) => Some(*id),
            None => None,
        }
    }

    pub fn server_by_id(&self, id: ServerId) -> (res: &Server)
        requires
            self.servers().contains_key(id),
        ensures
            *res == self.servers()[id],
    {
        self.servers.get(&id).unwrap()
    }

    /// Looks a server up by lower-case name.
    pub fn server_by_name(&self, lname: &str) -> (res: Option<ServerId>)
        ensures
            res == (if self.server_names().contains_key(lname@) {
                Some(self.server_names()[lname@])
            } else {
                None
            }),
    {
        match self.servers_by_lname.get(lname) {
            Some(id) => Some(*id),
            None => None,
        }
    }

    /// Whether a server of this id exists.
    pub fn has_server(&self, id: ServerId) -> (res: bool)
        ensures
            res == self.servers().contains_key(id),
    {
        self.servers.contains_key(&id)
    }

    /// Whether a client id is left to hand out.
    pub fn has_client_id(&self) -> (res: bool)
        ensures
            res == (self.next_client_id() < u32::MAX),
    {
        self.next_client_id < u32::MAX
    }

    /// Whether a subnet id is left to hand out.
    pub fn has_subnet_id(&self) -> (res: bool)
        ensures
            res == (self.next_subnet_id() < u32::MAX),
    {
        self.next_subnet_id < u32::MAX
    }

    /// Whether a server id is left to hand out.
    pub fn has_server_id(&self) -> (res: bool)
        ensures
            res == (self.next_server_id() < u32::MAX),
    {
        self.next_server_id < u32::MAX
    }

    pub fn server_count(&self) -> (res: usize)
        ensures
            res == self.servers().len(),
    {
        self.servers.len()
    }

    /// The ids of all clients, each once, in no particular order.
    pub fn client_iter(&self) -> (res: Vec<ClientId>)
        ensures
            res@.to_set() == self.clients().dom(),
            res@.no_duplicates(),
    {
        let mut ids: Vec<ClientId> = Vec::new();
        proof {
            if self.clients@.dom().len() == 0 {
                self.clients@.dom().lemma_len0_is_empty();
                assert(ids@.to_set() =~= self.clients@.dom());
            }
        }
        for k in it: self.clients.keys()
            invariant
                ids@ == it.seq().take(it.index()).unref(),
                it.index() == it.seq().len() ==> ids@.to_set() == self.clients@.dom()
                    && ids@.no_duplicates(),
        {
            ids.push(*k);
            proof {
                assert(it.seq().take(it.index() + 1).unref() =~= ids@);
                assert(it.index() + 1 == it.seq().len() ==> it.seq().take(it.index() + 1)
                    =~= it.seq());
            }
        }
        ids
    }

    /// The ids of all subnets, each once, in no particular order.
    pub fn subnet_iter(&self) -> (res: Vec<SubnetId>)
        ensures
            res@.to_set() == self.subnets().dom(),
            res@.no_duplicates(),
    {
        let mut ids: Vec<SubnetId> = Vec::new();
        proof {
            if self.subnets@.dom().len() == 0 {
                self.subnets@.dom().lemma_len0_is_empty();
                assert(ids@.to_set() =~= self.subnets@.dom());
            }
        }
        for k in it: self.subnets.keys()
            invariant
                ids@ == it.seq().take(it.index()).unref(),
                it.index() == it.seq().len() ==> ids@.to_set() == self.subnets@.dom()
                    && ids@.no_duplicates(),
        {
            ids.push(*k);
            proof {
                assert(it.seq().take(it.index() + 1).unref() =~= ids@);
                assert(it.index() + 1 == it.seq().len() ==> it.seq().take(it.index() + 1)
                    =~= it.seq());
            }
        }
        ids
    }
}


/// What `client_remove` leaves behind when it removed client `id`.
pub open spec fn client_removed(old: &State, new: &State, id: ClientId) -> bool {
    let c = old.clients()[id];
    &&& new.clients() == old.clients().remove(id)
    &&& same_except(old.subnets(), new.subnets(), c.subnet)
    &&& subnet_loses(old.subnets()[c.subnet], new.subnets()[c.subnet], c.lnick@, id)
    &&& same_except(old.servers(), new.servers(), c.server)
    &&& server_loses(old.servers()[c.server], new.servers()[c.server], id)
    &&& new.channels() == old.channels()
    &&& new.server_names() == old.server_names()
    &&& new.subnet_names() == old.subnet_names()
    &&& new.next_client_id() == old.next_client_id()
    &&& new.next_server_id() == old.next_server_id()
    &&& new.next_subnet_id() == old.next_subnet_id()
    &&& new.next_channel_id() == old.next_channel_id()
}

impl State {
    /// Removes a client from the network, its subnet and its server.
    pub fn client_remove(&mut self, id: ClientId)
        requires
            old(self).wf(),
            old(self).clients().contains_key(id),
        ensures
            final(self).wf(),
            client_removed(old(self), final(self), id),
    {
        proof {
            assert(old(self).client_ok(id));
        }
        let client = self.clients.remove(&id).unwrap();
        let mut sn = self.subnets.remove(&client.subnet).unwrap();
        sn.clients.remove(&id);
        sn.clients_by_lnick.remove(client.lnick.as_str());
        self.subnets.insert(client.subnet, sn);
        let mut sv = self.servers.remove(&client.server).unwrap();
        sv.clients.remove(&id);
        self.servers.insert(client.server, sv);
        let ghost after = *self;
        for channel in it: client.channels.iter()
            invariant
                *self == after,
        {
            self.channel_remove_member(*channel, id);
        }
        proof {
            assert(self.subnets@.dom() =~= old(self).subnets@.dom());
            assert(self.servers@.dom() =~= old(self).servers@.dom());
            assert(self.clients@ =~= old(self).clients@.remove(id));
            assert forall|k: ClientId| #[trigger] self.clients().contains_key(k) implies self.client_ok(k) by {
                assert(old(self).client_ok(k));
                let c = old(self).clients()[k];
                if c.subnet == client.subnet {
                    assert(c.lnick@ != client.lnick@);
                }
            }
            assert forall|k: SubnetId| #[trigger] self.subnets().contains_key(k) implies self.subnet_ok(k) by {
                assert(old(self).subnet_ok(k));
                let s = self.subnets()[k];
                assert forall|l: Seq<char>| #[trigger] s.clients_by_lnick@.contains_key(l) implies {
                    let c = s.clients_by_lnick@[l];
                    &&& self.clients().contains_key(c)
                    &&& self.clients()[c].lnick@ == l
                    &&& self.clients()[c].subnet == k
                } by {
                    assert(old(self).subnets()[k].clients_by_lnick@.contains_key(l));
                    let c = s.clients_by_lnick@[l];
                    assert(old(self).clients().contains_key(c));
                    if c == id {
                        assert(l == client.lnick@);
                    }
                }
            }
            assert forall|k: ServerId| #[trigger] self.servers().contains_key(k) implies self.server_ok(k) by {
                assert(old(self).server_ok(k));
                let s = self.servers()[k];
                if k != 0 {
                    let h = s.link->0.hub;
                    assert(old(self).servers().contains_key(h));
                }
                assert forall|d: ServerId| #[trigger] s.downlinks@.contains(d) implies {
                    &&& self.servers().contains_key(d)
                    &&& k < d
                    &&& self.servers()[d].link matches Some(l) && l.hub == k
                } by {
                    assert(old(self).servers()[k].downlinks@.contains(d));
                }
            }
            assert forall|l: Seq<char>| #[trigger] self.subnet_names().contains_key(l) implies {
                &&& self.subnets().contains_key(self.subnet_names()[l])
                &&& self.subnets()[self.subnet_names()[l]].lname@ == l
            } by {
                assert(old(self).subnets().contains_key(old(self).subnet_names()[l]));
            }
            assert forall|l: Seq<char>| #[trigger] self.server_names().contains_key(l) implies {
                &&& self.server_names()[l] < self.next_server_id()
                &&& self.servers().contains_key(self.server_names()[l])
                    ==> self.servers()[self.server_names()[l]].lname@ == l
            } by {
                assert(old(self).server_names().contains_key(l));
            }
        }
    }

    /// Adds a subnet unless its name, as given, is already indexed. The index takes the
    /// lower-case name.
    pub fn subnet_add(&mut self, name: String) -> (res: Result<SubnetId, Error>)
        requires
            old(self).wf(),
            old(self).next_subnet_id() < u32::MAX,
        ensures
            final(self).wf(),
            subnet_add_result(old(self), final(self), name@, res),
    {
        match self.subnets_by_lname.get(name.as_str()) {
            Some(existing) => {
                return Err(Error::SubnetNameAlreadyInUse(*existing));
            },
            None => {},
        }
        let id = self.next_subnet_id;
        self.next_subnet_id = self.next_subnet_id + 1;
        let lname = to_lowercase(name.as_str());
        let subnet = Subnet {
            id,
            lname,
            name,
            clients: HashSet::new(),
            clients_by_lnick: StringHashMap::new(),
            channels_by_lname: StringHashMap::new(),
        };
        self.subnets_by_lname.insert(subnet.lname.clone(), id);
        self.subnets.insert(id, subnet);
        proof {
            assert forall|k: ClientId| #[trigger] self.clients().contains_key(k) implies self.client_ok(k) by {
                assert(old(self).client_ok(k));
            }
            assert forall|k: SubnetId| #[trigger] self.subnets().contains_key(k) implies self.subnet_ok(k) by {
                if k != id {
                    assert(old(self).subnets().contains_key(k));
                    assert(old(self).subnet_ok(k));
                    let s = self.subnets()[k];
                    assert forall|l: Seq<char>| #[trigger] s.clients_by_lnick@.contains_key(l) implies {
                        let c = s.clients_by_lnick@[l];
                        &&& self.clients().contains_key(c)
                        &&& self.clients()[c].lnick@ == l
                        &&& self.clients()[c].subnet == k
                    } by {
                        assert(old(self).subnets()[k].clients_by_lnick@.contains_key(l));
                    }
                }
            }
            assert forall|k: ServerId| #[trigger] self.servers().contains_key(k) implies self.server_ok(k) by {
                assert(old(self).server_ok(k));
            }
            assert forall|l: Seq<char>| #[trigger] self.subnet_names().contains_key(l) implies {
                &&& self.subnets().contains_key(self.subnet_names()[l])
                &&& self.subnets()[self.subnet_names()[l]].lname@ == l
            } by {
                if l != lowercase(name@) {
                    assert(old(self).subnets().contains_key(old(self).subnet_names()[l]));
                }
            }
            assert forall|l: Seq<char>| #[trigger] self.server_names().contains_key(l) implies {
                &&& self.server_names()[l] < self.next_server_id()
                &&& self.servers().contains_key(self.server_names()[l])
                    ==> self.servers()[self.server_names()[l]].lname@ == l
            } by {
                assert(old(self).server_names().contains_key(l));
            }
        }
        Ok(id)
    }

    /// Links a new server below `hub`, unless a server of that name, in lower case,
    /// exists. Its route is the hub's route, or itself when the hub is the local server.
    pub fn server_add(&mut self, name: String, hub: ServerId) -> (res: Result<ServerId, Error>)
        requires
            old(self).wf(),
            old(self).servers().contains_key(hub),
            old(self).next_server_id() < u32::MAX,
        ensures
            final(self).wf(),
            server_add_result(old(self), final(self), name@, hub, res),
    {
        let lname = to_lowercase(name.as_str());
        match self.server_by_name(lname.as_str()) {
            Some(existing) => {
                return Err(Error::ServerNameAlreadyExists(existing));
            },
            None => {},
        }
        let id = self.next_server_id;
        self.next_server_id = self.next_server_id + 1;
        proof {
            assert(old(self).server_ok(hub));
        }
        let link = match self.server_by_id(hub).link {
            Some(link) => Link { hub, route: link.route },
            None => Link { hub: 0, route: id },
        };
        let mut h = self.servers.remove(&link.hub).unwrap();
        h.downlinks.insert(id);
        self.servers.insert(link.hub, h);
        let server = Server {
            id,
            name,
            lname,
            link: Some(link),
            clients: HashSet::new(),
            downlinks: HashSet::new(),
        };
        self.servers_by_lname.insert(server.lname.clone(), id);
        self.servers.insert(id, server);
        proof {
            assert(self.servers@.dom() =~= old(self).servers@.dom().insert(id));
            assert forall|k: ClientId| #[trigger] self.clients().contains_key(k) implies self.client_ok(k) by {
                assert(old(self).client_ok(k));
            }
            assert forall|k: SubnetId| #[trigger] self.subnets().contains_key(k) implies self.subnet_ok(k) by {
                assert(old(self).subnet_ok(k));
            }
            assert forall|k: ServerId| #[trigger] self.servers().contains_key(k) implies self.server_ok(k) by {
                if k != id {
                    assert(old(self).server_ok(k));
                    let s = self.servers()[k];
                    if k != 0 {
                        let hh = s.link->0.hub;
                        assert(old(self).servers().contains_key(hh));
                    }
                    assert forall|d: ServerId| #[trigger] s.downlinks@.contains(d) implies {
                        &&& self.servers().contains_key(d)
                        &&& k < d
                        &&& self.servers()[d].link matches Some(l) && l.hub == k
                    } by {
                        if d != id {
                            assert(old(self).servers()[k].downlinks@.contains(d));
                        }
                    }
                }
            }
            assert forall|l: Seq<char>| #[trigger] self.subnet_names().contains_key(l) implies {
                &&& self.subnets().contains_key(self.subnet_names()[l])
                &&& self.subnets()[self.subnet_names()[l]].lname@ == l
            } by {
                assert(old(self).subnets().contains_key(old(self).subnet_names()[l]));
            }
            assert forall|l: Seq<char>| #[trigger] self.server_names().contains_key(l) implies {
                &&& self.server_names()[l] < self.next_server_id()
                &&& self.servers().contains_key(self.server_names()[l])
                    ==> self.servers()[self.server_names()[l]].lname@ == l
            } by {
                if l != lowercase(name@) {
                    assert(old(self).server_names().contains_key(l));
                }
            }
        }
        Ok(id)
    }
}

/// Server `x` is `a` or lies below it: following hubs up from `x` reaches `a`.
pub open spec fn below(st: &State, x: ServerId, a: ServerId) -> bool
    decreases x,
{
    if x == a {
        true
    } else if st.servers().contains_key(x) && st.servers()[x].link is Some
        && st.servers()[x].link->0.hub < x {
        below(st, st.servers()[x].link->0.hub, a)
    } else {
        false
    }
}

/// The clients on `a` and on the servers below it.
pub open spec fn clients_below(st: &State, a: ServerId) -> Set<ClientId> {
    Set::new(|c: ClientId| st.clients().contains_key(c) && below(st, st.clients()[c].server, a))
}

/// Servers only lie below servers of smaller or equal id.
proof fn lemma_below_order(st: &State, x: ServerId, a: ServerId)
    requires
        below(st, x, a),
    ensures
        a <= x,
    decreases x,
{
    if x != a {
        lemma_below_order(st, st.servers()[x].link->0.hub, a);
    }
}

/// Lying below is transitive.
proof fn lemma_below_trans(st: &State, x: ServerId, m: ServerId, a: ServerId)
    requires
        below(st, x, m),
        below(st, m, a),
    ensures
        below(st, x, a),
    decreases x,
{
    if x != m {
        lemma_below_trans(st, st.servers()[x].link->0.hub, m, a);
    }
}

/// A server strictly below `a` lies below one of `a`'s downlinks.
proof fn lemma_below_child(st: &State, x: ServerId, a: ServerId) -> (d: ServerId)
    requires
        st.wf(),
        below(st, x, a),
        x != a,
    ensures
        st.servers()[a].downlinks@.contains(d),
        below(st, x, d),
    decreases x,
{
    let p = st.servers()[x].link->0.hub;
    assert(st.server_ok(x));
    if p == a {
        x
    } else {
        let d = lemma_below_child(st, p, a);
        d
    }
}

/// The clients below `a` are those of `a` and those below its downlinks.
proof fn lemma_clients_below_split(st: &State, a: ServerId, c: ClientId)
    requires
        st.wf(),
        st.servers().contains_key(a),
    ensures
        clients_below(st, a).contains(c) <==> st.servers()[a].clients@.contains(c) || exists|
            d: ServerId,
        |
            #![trigger clients_below(st, d).contains(c)]
            st.servers()[a].downlinks@.contains(d) && clients_below(st, d).contains(c),
{
    assert(st.server_ok(a));
    if clients_below(st, a).contains(c) {
        let k = st.clients()[c].server;
        assert(st.client_ok(c));
        if k != a {
            let d = lemma_below_child(st, k, a);
            assert(clients_below(st, d).contains(c));
        }
    }
    if st.servers()[a].clients@.contains(c) {
        assert(clients_below(st, a).contains(c));
    }
    if exists|d: ServerId|
        #![trigger clients_below(st, d).contains(c)]
        st.servers()[a].downlinks@.contains(d) && clients_below(st, d).contains(c) {
        let d = choose|d: ServerId|
            #![trigger clients_below(st, d).contains(c)]
            st.servers()[a].downlinks@.contains(d) && clients_below(st, d).contains(c);
        assert(below(st, a, a));
        assert(below(st, d, a));
        lemma_below_trans(st, st.clients()[c].server, d, a);
    }
}

impl State {
    /// The clients a split at server `id` cuts off: those on `id` and on the servers
    /// below it.
    pub fn calculate_netsplit_affected_clients(&self, id: ServerId) -> (res: HashSet<ClientId>)
        requires
            self.wf(),
            self.servers().contains_key(id),
        ensures
            res@ == clients_below(self, id),
    {
        let mut set = HashSet::new();
        self.calculate_netsplit_affected_clients_helper(id, &mut set);
        assert(set@ =~= clients_below(self, id));
        set
    }

    /// Adds to `set` the clients on `id` and on the servers below it.
    fn calculate_netsplit_affected_clients_helper(&self, id: ServerId, set: &mut HashSet<ClientId>)
        requires
            self.wf(),
            self.servers().contains_key(id),
        ensures
            final(set)@ == old(set)@ + clients_below(self, id),
        decreases u32::MAX - id,
    {
        proof {
            assert(self.server_ok(id));
        }
        let server = self.servers.get(&id).unwrap();
        let clients = client_items(&server.clients);
        let mut i: usize = 0;
        while i < clients.len()
            invariant
                i <= clients.len(),
                clients@.to_set() == server.clients@,
                set@ == old(set)@ + clients@.take(i as int).to_set(),
            decreases clients.len() - i,
        {
            proof {
                assert(clients@.take(i + 1) =~= clients@.take(i as int).push(clients@[i as int]));
                clients@.take(i as int).lemma_push_to_set_commute(clients@[i as int]);
            }
            set.insert(clients[i]);
            i = i + 1;
        }
        proof {
            assert(clients@.take(i as int) =~= clients@);
        }
        let downlinks = server_items(&server.downlinks);
        let ghost base = set@;
        let mut j: usize = 0;
        while j < downlinks.len()
            invariant
                j <= downlinks.len(),
                self.wf(),
                self.server_ok(id),
                *server == self.servers()[id],
                downlinks@.to_set() == server.downlinks@,
                base == old(set)@ + server.clients@,
                forall|c: ClientId| #[trigger]
                    set@.contains(c) <==> base.contains(c) || exists|k: int|
                        0 <= k < j && #[trigger] clients_below(self, downlinks@[k]).contains(c),
            decreases downlinks.len() - j,
        {
            proof {
                assert(downlinks@.to_set().contains(downlinks@[j as int]));
            }
            let ghost before = set@;
            self.calculate_netsplit_affected_clients_helper(downlinks[j], set);
            proof {
                assert forall|c: ClientId| #[trigger]
                    set@.contains(c) <==> base.contains(c) || exists|k: int|
                        0 <= k < j + 1 && #[trigger] clients_below(self, downlinks@[k]).contains(c) by {
                    if clients_below(self, downlinks@[j as int]).contains(c) {
                    }
                }
            }
            j = j + 1;
        }
        proof {
            assert forall|c: ClientId| set@.contains(c) <==> (old(set)@ + clients_below(self, id)).contains(c) by {
                lemma_clients_below_split(self, id, c);
                if set@.contains(c) && !base.contains(c) {
                    let k = choose|k: int|
                        0 <= k < j && #[trigger] clients_below(self, downlinks@[k]).contains(c);
                    assert(downlinks@.to_set().contains(downlinks@[k]));
                }
                if exists|d: ServerId|
                    #![trigger clients_below(self, d).contains(c)]
                    server.downlinks@.contains(d) && clients_below(self, d).contains(c) {
                    let d = choose|d: ServerId|
                        #![trigger clients_below(self, d).contains(c)]
                        server.downlinks@.contains(d) && clients_below(self, d).contains(c);
                    assert(downlinks@.to_set().contains(d));
                    let k = choose|k: int| 0 <= k < downlinks@.len() && downlinks@[k] == d;
                    assert(clients_below(self, downlinks@[k]).contains(c));
                }
            }
            assert(set@ =~= old(set)@ + clients_below(self, id));
        }
    }
}

/// A server after its downlink `id` was taken out.
pub open spec fn server_drops(a: Server, b: Server, id: ServerId) -> bool {
    &&& b.id == a.id
    &&& b.name@ == a.name@
    &&& b.lname@ == a.lname@
    &&& b.link == a.link
    &&& b.clients@ == a.clients@
    &&& b.downlinks@ == a.downlinks@.remove(id)
}

/// What `server_remove` leaves behind: server `id` and the servers below it are gone,
/// its hub no longer lists it, and nothing else changed.
pub open spec fn server_removed(old: &State, new: &State, id: ServerId) -> bool {
    let hub = old.servers()[id].link->0.hub;
    &&& forall|x: ServerId|
        #[trigger] new.servers().contains_key(x) <==> old.servers().contains_key(x) && !below(
            old,
            x,
            id,
        )
    &&& forall|x: ServerId|
        #[trigger] new.servers().contains_key(x) && (id == 0 || x != hub) ==> new.servers()[x]
            == old.servers()[x]
    &&& id != 0 ==> new.servers().contains_key(hub) && server_drops(
        old.servers()[hub],
        new.servers()[hub],
        id,
    )
    &&& new.clients() == old.clients()
    &&& new.subnets() == old.subnets()
    &&& new.channels() == old.channels()
    &&& new.server_names() == old.server_names()
    &&& new.subnet_names() == old.subnet_names()
    &&& new.next_client_id() == old.next_client_id()
    &&& new.next_server_id() == old.next_server_id()
    &&& new.next_subnet_id() == old.next_subnet_id()
    &&& new.next_channel_id() == old.next_channel_id()
}

/// `new` keeps some of `old`'s servers, unchanged.
pub open spec fn servers_kept(old: &State, new: &State) -> bool {
    forall|y: ServerId| #[trigger]
        new.servers().contains_key(y) ==> old.servers().contains_key(y) && new.servers()[y]
            == old.servers()[y]
}

/// What lies below `a` among kept servers lay below it before.
proof fn lemma_below_kept(old: &State, new: &State, x: ServerId, a: ServerId)
    requires
        servers_kept(old, new),
        below(new, x, a),
    ensures
        below(old, x, a),
    decreases x,
{
    if x != a {
        lemma_below_kept(old, new, new.servers()[x].link->0.hub, a);
    }
}

/// What lay below `a` still does, when everything below `a` is kept.
proof fn lemma_below_keeps(old: &State, new: &State, x: ServerId, a: ServerId)
    requires
        servers_kept(old, new),
        below(old, x, a),
        forall|y: ServerId| #[trigger]
            old.servers().contains_key(y) && below(old, y, a) ==> new.servers().contains_key(y),
    ensures
        below(new, x, a),
    decreases x,
{
    if x != a {
        lemma_below_keeps(old, new, old.servers()[x].link->0.hub, a);
    }
}

/// Two servers above a third lie one above the other.
proof fn lemma_below_linear(st: &State, x: ServerId, a: ServerId, b: ServerId)
    requires
        below(st, x, a),
        below(st, x, b),
    ensures
        below(st, a, b) || below(st, b, a),
    decreases x,
{
    if x != a && x != b {
        lemma_below_linear(st, st.servers()[x].link->0.hub, a, b);
    }
}

impl State {
    /// The shape the server table keeps while servers are taken out: wherever both ends
    /// of a link are present, the downlink has a larger id and names its hub, and the
    /// hub lists it.
    spec fn forest(&self) -> bool {
        &&& forall|k: ServerId, d: ServerId|
            #[trigger] self.servers().contains_key(k) && #[trigger] self.servers()[k].downlinks@.contains(d)
                && self.servers().contains_key(d) ==> k < d && (self.servers()[d].link matches Some(l)
                && l.hub == k)
        &&& forall|k: ServerId| #[trigger]
            self.servers().contains_key(k) && self.servers()[k].link is Some
                && self.servers().contains_key(self.servers()[k].link->0.hub)
                ==> self.servers()[self.servers()[k].link->0.hub].downlinks@.contains(k)
    }

    /// The servers below `id` and their downlinks are all present, and hold no clients.
    spec fn clear_below(&self, id: ServerId) -> bool {
        &&& forall|k: ServerId, d: ServerId|
            #[trigger] self.servers().contains_key(k) && below(self, k, id)
                && #[trigger] self.servers()[k].downlinks@.contains(d) ==> self.servers().contains_key(d)
        &&& forall|k: ServerId| #[trigger]
            self.servers().contains_key(k) && below(self, k, id) ==> self.servers()[k].clients@.is_empty()
    }

    /// Two downlinks of one hub do not lie one below the other.
    proof fn lemma_siblings(&self, a: ServerId, b: ServerId, c: ServerId)
        requires
            self.forest(),
            self.servers().contains_key(a),
            self.servers().contains_key(b),
            self.servers().contains_key(c),
            self.servers()[a].downlinks@.contains(b),
            self.servers()[a].downlinks@.contains(c),
            b != c,
        ensures
            !below(self, b, c),
    {
        if below(self, b, c) {
            lemma_below_order(self, a, c);
        }
    }

    /// A present server strictly below present server `a` lies below one of `a`'s
    /// downlinks.
    proof fn lemma_forest_child(&self, x: ServerId, a: ServerId) -> (d: ServerId)
        requires
            self.forest(),
            self.servers().contains_key(a),
            below(self, x, a),
            x != a,
        ensures
            self.servers()[a].downlinks@.contains(d),
            self.servers().contains_key(d),
            below(self, x, d),
        decreases x,
    {
        let p = self.servers()[x].link->0.hub;
        if p == a {
            x
        } else {
            self.lemma_forest_child(p, a)
        }
    }

    /// Keeping some servers unchanged keeps the forest's shape.
    proof fn lemma_forest_kept(old: &State, new: &State)
        requires
            old.forest(),
            servers_kept(old, new),
        ensures
            new.forest(),
    {
        assert forall|k: ServerId, d: ServerId|
            #[trigger] new.servers().contains_key(k) && #[trigger] new.servers()[k].downlinks@.contains(d)
                && new.servers().contains_key(d) implies k < d && (new.servers()[d].link matches Some(
            l,
        ) && l.hub == k) by {
            assert(old.servers()[k].downlinks@.contains(d));
        }
        assert forall|k: ServerId| #[trigger]
            new.servers().contains_key(k) && new.servers()[k].link is Some
                && new.servers().contains_key(new.servers()[k].link->0.hub)
                implies new.servers()[new.servers()[k].link->0.hub].downlinks@.contains(k) by {
            assert(old.servers().contains_key(new.servers()[k].link->0.hub));
        }
    }

    /// Takes server `id` and the servers below it out of the table, and `id` out of its
    /// hub's downlinks.
    fn remove_below(&mut self, id: ServerId)
        requires
            old(self).forest(),
            old(self).servers().contains_key(id),
            old(self).clear_below(id),
        ensures
            final(self).forest(),
            forall|x: ServerId|
                #[trigger] final(self).servers().contains_key(x) <==> old(self).servers().contains_key(
                    x,
                ) && !below(old(self), x, id),
            forall|x: ServerId|
                #[trigger] final(self).servers().contains_key(x) && (old(self).servers()[id].link is None
                    || x != old(self).servers()[id].link->0.hub) ==> final(self).servers()[x] == old(
                    self,
                ).servers()[x],
            old(self).servers()[id].link is Some && final(self).servers().contains_key(
                old(self).servers()[id].link->0.hub,
            ) ==> server_drops(
                old(self).servers()[old(self).servers()[id].link->0.hub],
                final(self).servers()[old(self).servers()[id].link->0.hub],
                id,
            ),
            final(self).clients@ == old(self).clients@,
            final(self).subnets@ == old(self).subnets@,
            final(self).channels@ == old(self).channels@,
            final(self).servers_by_lname@ == old(self).servers_by_lname@,
            final(self).subnets_by_lname@ == old(self).subnets_by_lname@,
            final(self).next_client_id == old(self).next_client_id,
            final(self).next_server_id == old(self).next_server_id,
            final(self).next_subnet_id == old(self).next_subnet_id,
            final(self).next_channel_id == old(self).next_channel_id,
        decreases u32::MAX - id,
    {
        let ghost st0 = *old(self);
        let server = self.servers.remove(&id).unwrap();
        let downlinks = server_items(&server.downlinks);
        let mut j: usize = 0;
        while j < downlinks.len()
            invariant
                j <= downlinks.len(),
                downlinks@.to_set() == server.downlinks@,
                downlinks@.no_duplicates(),
                server == st0.servers()[id],
                st0.forest(),
                st0.servers().contains_key(id),
                st0.clear_below(id),
                self.clients@ == st0.clients@,
                self.subnets@ == st0.subnets@,
                self.channels@ == st0.channels@,
                self.servers_by_lname@ == st0.servers_by_lname@,
                self.subnets_by_lname@ == st0.subnets_by_lname@,
                self.next_client_id == st0.next_client_id,
                self.next_server_id == st0.next_server_id,
                self.next_subnet_id == st0.next_subnet_id,
                self.next_channel_id == st0.next_channel_id,
                servers_kept(&st0, self),
                forall|x: ServerId|
                    #[trigger] self.servers().contains_key(x) <==> st0.servers().contains_key(x) && x
                        != id && !(exists|k: int|
                        0 <= k < j && #[trigger] below(&st0, x, downlinks@[k])),
            decreases downlinks.len() - j,
        {
            let d = downlinks[j];
            proof {
                assert(downlinks@.to_set().contains(d));
                assert(below(&st0, id, id));
                assert(st0.servers().contains_key(d));
                assert(id < d);
                assert(below(&st0, d, id));
                assert forall|y: ServerId|
                    st0.servers().contains_key(y) && below(&st0, y, d) implies #[trigger] self.servers().contains_key(y) by {
                    lemma_below_order(&st0, y, d);
                    assert forall|k: int| 0 <= k < j implies !#[trigger] below(&st0, y, downlinks@[k]) by {
                        let c = downlinks@[k];
                        assert(downlinks@.to_set().contains(c));
                        if below(&st0, y, c) {
                            lemma_below_linear(&st0, y, d, c);
                            st0.lemma_siblings(id, d, c);
                            st0.lemma_siblings(id, c, d);
                        }
                    }
                }
                State::lemma_forest_kept(&st0, self);
                assert forall|k: ServerId, e: ServerId|
                    #[trigger] self.servers().contains_key(k) && below(self, k, d)
                        && #[trigger] self.servers()[k].downlinks@.contains(e) implies self.servers().contains_key(e) by {
                    lemma_below_kept(&st0, self, k, d);
                    lemma_below_trans(&st0, k, d, id);
                    assert(st0.servers().contains_key(e));
                    assert(below(&st0, k, k));
                    assert(below(&st0, e, k));
                    lemma_below_trans(&st0, e, k, d);
                }
                assert forall|k: ServerId| #[trigger]
                    self.servers().contains_key(k) && below(self, k, d) implies self.servers()[k].clients@.is_empty() by {
                    lemma_below_kept(&st0, self, k, d);
                    lemma_below_trans(&st0, k, d, id);
                }
            }
            proof {
                assert(st0.servers()[id].downlinks@.contains(d));
                assert(self.servers().contains_key(d));
            }
            let ghost before = *self;
            self.remove_below(d);
            proof {
                assert(!before.servers().contains_key(id));
                assert(before.servers()[d].link->0.hub == id);
                assert forall|y: ServerId| #[trigger] self.servers().contains_key(y) implies st0.servers().contains_key(y)
                    && self.servers()[y] == st0.servers()[y] by {
                    assert(before.servers().contains_key(y));
                }
                assert forall|x: ServerId|
                    #[trigger] self.servers().contains_key(x) <==> st0.servers().contains_key(x) && x
                        != id && !(exists|k: int|
                        0 <= k < j + 1 && #[trigger] below(&st0, x, downlinks@[k])) by {
                    if before.servers().contains_key(x) {
                        if below(&before, x, d) {
                            lemma_below_kept(&st0, &before, x, d);
                        }
                        if below(&st0, x, d) {
                            lemma_below_keeps(&st0, &before, x, d);
                        }
                    }
                }
            }
            j = j + 1;
        }
        proof {
            assert forall|x: ServerId|
                #[trigger] self.servers().contains_key(x) <==> st0.servers().contains_key(x) && !below(
                    &st0,
                    x,
                    id,
                ) by {
                if st0.servers().contains_key(x) && x != id {
                    if below(&st0, x, id) {
                        let c = st0.lemma_forest_child(x, id);
                        assert(downlinks@.to_set().contains(c));
                        let k = choose|k: int| 0 <= k < downlinks@.len() && downlinks@[k] == c;
                        assert(below(&st0, x, downlinks@[k]));
                    }
                    if exists|k: int| 0 <= k < j && #[trigger] below(&st0, x, downlinks@[k]) {
                        let k = choose|k: int| 0 <= k < j && #[trigger] below(&st0, x, downlinks@[k]);
                        let c = downlinks@[k];
                        assert(downlinks@.to_set().contains(c));
                        assert(below(&st0, id, id));
                        assert(below(&st0, c, id));
                        lemma_below_trans(&st0, x, c, id);
                    }
                }
            }
            State::lemma_forest_kept(&st0, self);
        }
        let ghost mid = *self;
        match server.link {
            Some(l) => {
                if self.servers.contains_key(&l.hub) {
                    let mut h = self.servers.remove(&l.hub).unwrap();
                    h.downlinks.remove(&id);
                    self.servers.insert(l.hub, h);
                    proof {
                        assert(self.servers().dom() =~= mid.servers().dom());
                    }
                }
            },
            None => {},
        }
        proof {
            assert forall|k: ServerId, e: ServerId|
                #[trigger] self.servers().contains_key(k) && #[trigger] self.servers()[k].downlinks@.contains(e)
                    && self.servers().contains_key(e) implies k < e && (self.servers()[e].link matches Some(
                l,
            ) && l.hub == k) by {
                assert(mid.servers().contains_key(k));
                assert(mid.servers()[k].downlinks@.contains(e));
                assert(mid.servers()[e].link == self.servers()[e].link);
            }
            assert forall|k: ServerId| #[trigger]
                self.servers().contains_key(k) && self.servers()[k].link is Some
                    && self.servers().contains_key(self.servers()[k].link->0.hub)
                    implies self.servers()[self.servers()[k].link->0.hub].downlinks@.contains(k) by {
                assert(mid.servers().contains_key(k));
                assert(mid.servers()[k].link == self.servers()[k].link);
                assert(k != id);
            }
        }
    }

    /// Takes server `id` and every server below it off the network. The servers taken
    /// off must hold no clients.
    pub fn server_remove(&mut self, id: ServerId)
        requires
            old(self).wf(),
            old(self).servers().contains_key(id),
            forall|k: ServerId| #[trigger]
                old(self).servers().contains_key(k) && below(old(self), k, id)
                    ==> old(self).servers()[k].clients@.is_empty(),
        ensures
            final(self).wf(),
            server_removed(old(self), final(self), id),
    {
        proof {
            assert(self.forest()) by {
                assert forall|k: ServerId, d: ServerId|
                    #[trigger] self.servers().contains_key(k) && #[trigger] self.servers()[k].downlinks@.contains(d)
                        && self.servers().contains_key(d) implies k < d && (self.servers()[d].link matches Some(
                    l,
                ) && l.hub == k) by {
                    assert(self.server_ok(k));
                }
                assert forall|k: ServerId| #[trigger]
                    self.servers().contains_key(k) && self.servers()[k].link is Some
                        && self.servers().contains_key(self.servers()[k].link->0.hub)
                        implies self.servers()[self.servers()[k].link->0.hub].downlinks@.contains(k) by {
                    assert(self.server_ok(k));
                }
            }
            assert(self.clear_below(id)) by {
                assert forall|k: ServerId, d: ServerId|
                    #[trigger] self.servers().contains_key(k) && below(self, k, id)
                        && #[trigger] self.servers()[k].downlinks@.contains(d) implies self.servers().contains_key(d) by {
                    assert(self.server_ok(k));
                }
            }
            assert(self.server_ok(id));
        }
        self.remove_below(id);
        proof {
            State::lemma_removed_wf(old(self), self, id);
        }
    }

    /// What `remove_below` leaves of a well-formed state is well formed, and is what
    /// `server_remove` promises.
    #[verifier::rlimit(30)]
    proof fn lemma_removed_wf(st0: &State, st: &State, id: ServerId)
        requires
            st0.wf(),
            st0.servers().contains_key(id),
            forall|k: ServerId| #[trigger]
                st0.servers().contains_key(k) && below(st0, k, id) ==> st0.servers()[k].clients@.is_empty(),
            forall|x: ServerId|
                #[trigger] st.servers().contains_key(x) <==> st0.servers().contains_key(x) && !below(
                    st0,
                    x,
                    id,
                ),
            forall|x: ServerId|
                #[trigger] st.servers().contains_key(x) && (st0.servers()[id].link is None || x
                    != st0.servers()[id].link->0.hub) ==> st.servers()[x] == st0.servers()[x],
            st0.servers()[id].link is Some && st.servers().contains_key(
                st0.servers()[id].link->0.hub,
            ) ==> server_drops(
                st0.servers()[st0.servers()[id].link->0.hub],
                st.servers()[st0.servers()[id].link->0.hub],
                id,
            ),
            st.clients@ == st0.clients@,
            st.subnets@ == st0.subnets@,
            st.channels@ == st0.channels@,
            st.servers_by_lname@ == st0.servers_by_lname@,
            st.subnets_by_lname@ == st0.subnets_by_lname@,
            st.next_client_id == st0.next_client_id,
            st.next_server_id == st0.next_server_id,
            st.next_subnet_id == st0.next_subnet_id,
            st.next_channel_id == st0.next_channel_id,
        ensures
            st.wf(),
            server_removed(st0, st, id),
    {
        assert(st0.server_ok(id));
        let hub = st0.servers()[id].link->0.hub;
        if id != 0 {
            assert(st0.servers().contains_key(hub));
            if below(st0, hub, id) {
                lemma_below_order(st0, hub, id);
            }
            assert(st.servers().contains_key(hub));
        }
        assert forall|x: ServerId| #[trigger] st.servers().contains_key(x) implies {
            let a = st0.servers()[x];
            let b = st.servers()[x];
            &&& st0.servers().contains_key(x)
            &&& !below(st0, x, id)
            &&& b.id == a.id
            &&& b.link == a.link
            &&& b.lname@ == a.lname@
            &&& b.clients@ == a.clients@
            &&& forall|d: ServerId|
                #[trigger] b.downlinks@.contains(d) <==> a.downlinks@.contains(d) && !(id != 0
                    && x == hub && d == id)
        } by {
            if id != 0 && x == hub {
            } else {
            }
        }
        assert forall|k: ClientId| #[trigger] st.clients().contains_key(k) implies st.client_ok(k) by {
            assert(st0.client_ok(k));
            let sv = st0.clients()[k].server;
            assert(st0.servers()[sv].clients@.contains(k));
            if below(st0, sv, id) {
                assert(st0.servers()[sv].clients@.is_empty());
                assert(false);
            }
            assert(st.servers().contains_key(sv));
        }
        assert forall|k: SubnetId| #[trigger] st.subnets().contains_key(k) implies st.subnet_ok(k) by {
            assert(st0.subnet_ok(k));
        }
        assert forall|k: ServerId| #[trigger] st.servers().contains_key(k) implies st.server_ok(k) by {
            assert(st0.server_ok(k));
            let s = st.servers()[k];
            if k != 0 {
                let h = s.link->0.hub;
                if below(st0, h, id) {
                    assert(below(st0, k, id));
                }
                assert(st.servers().contains_key(h));
                assert(st0.servers()[h].downlinks@.contains(k));
                assert(st.servers()[h].downlinks@.contains(k));
            }
            assert forall|d: ServerId| #[trigger] s.downlinks@.contains(d) implies {
                &&& st.servers().contains_key(d)
                &&& k < d
                &&& st.servers()[d].link matches Some(l) && l.hub == k
            } by {
                assert(st0.servers()[k].downlinks@.contains(d));
                assert(st0.servers().contains_key(d));
                if below(st0, d, id) {
                    assert(d != id);
                    assert(below(st0, k, id));
                }
                assert(st.servers().contains_key(d));
            }
            assert forall|c: ClientId| #[trigger] s.clients@.contains(c) implies st.clients().contains_key(c)
                && st.clients()[c].server == k by {
                assert(st0.servers()[k].clients@.contains(c));
            }
        }
        assert forall|l: Seq<char>| #[trigger] st.subnet_names().contains_key(l) implies {
            &&& st.subnets().contains_key(st.subnet_names()[l])
            &&& st.subnets()[st.subnet_names()[l]].lname@ == l
        } by {
            assert(st0.subnet_names().contains_key(l));
        }
        assert forall|l: Seq<char>| #[trigger] st.server_names().contains_key(l) implies {
            &&& st.server_names()[l] < st.next_server_id()
            &&& st.servers().contains_key(st.server_names()[l])
                ==> st.servers()[st.server_names()[l]].lname@ == l
        } by {
            assert(st0.server_names().contains_key(l));
        }
    }
}

/// A client that was added is found under its lower-case nick in its subnet, and keeps
/// the nick it was given.
pub proof fn lemma_added_client_found(
    old: &State,
    new: &State,
    nick: Seq<char>,
    ident: Seq<char>,
    host: Seq<char>,
    gecos: Seq<char>,
    server: ServerId,
    subnet: SubnetId,
    id: ClientId,
)
    requires
        client_add_result(old, new, nick, ident, host, gecos, server, subnet, Ok(id)),
    ensures
        new.subnets()[subnet].clients_by_lnick@.contains_key(lowercase(nick)),
        new.subnets()[subnet].clients_by_lnick@[lowercase(nick)] == id,
        new.clients()[id].nick@ == nick,
        new.clients()[id].server == server,
{
}

/// Removing a client right after adding it gives back the client table, the subnet's
/// members and nick index, the server's clients, and every other subnet and server.
pub proof fn lemma_add_then_remove(
    s0: &State,
    s1: &State,
    s2: &State,
    nick: Seq<char>,
    ident: Seq<char>,
    host: Seq<char>,
    gecos: Seq<char>,
    server: ServerId,
    subnet: SubnetId,
    id: ClientId,
)
    requires
        s0.wf(),
        s0.subnets().contains_key(subnet),
        s0.servers().contains_key(server),
        client_add_result(s0, s1, nick, ident, host, gecos, server, subnet, Ok(id)),
        client_removed(s1, s2, id),
    ensures
        s2.clients() == s0.clients(),
        s2.subnets().dom() == s0.subnets().dom(),
        s2.subnets()[subnet].clients@ == s0.subnets()[subnet].clients@,
        s2.subnets()[subnet].clients_by_lnick@ == s0.subnets()[subnet].clients_by_lnick@,
        s2.servers().dom() == s0.servers().dom(),
        s2.servers()[server].clients@ == s0.servers()[server].clients@,
        forall|k: SubnetId| #[trigger]
            s0.subnets().contains_key(k) && k != subnet ==> s2.subnets()[k] == s0.subnets()[k],
        forall|k: ServerId| #[trigger]
            s0.servers().contains_key(k) && k != server ==> s2.servers()[k] == s0.servers()[k],
{
    assert(!s0.clients().contains_key(id)) by {
        if s0.clients().contains_key(id) {
            assert(s0.client_ok(id));
        }
    }
    assert(s0.subnet_ok(subnet));
    assert(s0.server_ok(server));
    assert(!s0.subnets()[subnet].clients@.contains(id));
    assert(!s0.servers()[server].clients@.contains(id));
    assert(s2.clients() =~= s0.clients());
    assert(s2.subnets()[subnet].clients@ =~= s0.subnets()[subnet].clients@);
    assert(s2.subnets()[subnet].clients_by_lnick@ =~= s0.subnets()[subnet].clients_by_lnick@);
    assert(s2.servers()[server].clients@ =~= s0.servers()[server].clients@);
}

/// A server that was linked is found under its lower-case name, below its hub.
pub proof fn lemma_added_server_found(
    old: &State,
    new: &State,
    name: Seq<char>,
    hub: ServerId,
    id: ServerId,
)
    requires
        server_add_result(old, new, name, hub, Ok(id)),
    ensures
        new.server_names().contains_key(lowercase(name)),
        new.server_names()[lowercase(name)] == id,
        new.servers()[id].name@ == name,
        new.servers()[hub].downlinks@.contains(id),
{
}

/// A subnet that was added is found under its lower-case name.
pub proof fn lemma_added_subnet_found(old: &State, new: &State, name: Seq<char>, id: SubnetId)
    requires
        subnet_add_result(old, new, name, Ok(id)),
    ensures
        new.subnet_names().contains_key(lowercase(name)),
        new.subnet_names()[lowercase(name)] == id,
        new.subnets()[id].name@ == name,
{
}

/// Adding a subnet a second time under the same name, when the name is already lower
/// case, is refused with the first subnet's id and changes nothing.
pub proof fn lemma_subnet_added_twice(
    s0: &State,
    s1: &State,
    s2: &State,
    name: Seq<char>,
    first: SubnetId,
    second: Result<SubnetId, Error>,
)
    requires
        lowercase(name) == name,
        subnet_add_result(s0, s1, name, Ok(first)),
        subnet_add_result(s1, s2, name, second),
    ensures
        second == Err::<SubnetId, Error>(Error::SubnetNameAlreadyInUse(first)),
        *s2 == *s1,
{
}

/// The clients a split at server `id` cuts off are exactly the clients whose server
/// goes when `id` is removed.
pub proof fn lemma_split_matches_removal(st: &State, new: &State, id: ServerId)
    requires
        st.wf(),
        server_removed(st, new, id),
    ensures
        forall|c: ClientId|
            #[trigger] st.clients().contains_key(c) ==> (clients_below(st, id).contains(c)
                <==> !new.servers().contains_key(st.clients()[c].server)),
{
    assert forall|c: ClientId| #[trigger] st.clients().contains_key(c) implies (clients_below(
        st,
        id,
    ).contains(c) <==> !new.servers().contains_key(st.clients()[c].server)) by {
        assert(st.client_ok(c));
    }
}

/// The members of a set of client ids, each once, in no particular order.
pub(crate) fn client_items(s: &HashSet<ClientId>) -> (res: Vec<ClientId>)
    ensures
        res@.to_set() == s@,
        res@.no_duplicates(),
{
    let mut ids: Vec<ClientId> = Vec::new();
    for k in it: s.iter()
        invariant
            ids@ == it.seq().take(it.index()).unref(),
            it.index() == it.seq().len() ==> ids@.to_set() == s@ && ids@.no_duplicates(),
    {
        ids.push(*k);
        proof {
            assert(it.seq().take(it.index() + 1).unref() =~= ids@);
            assert(it.index() + 1 == it.seq().len() ==> it.seq().take(it.index() + 1) =~= it.seq());
        }
    }
    ids
}

/// The members of a set of server ids, each once, in no particular order.
pub fn server_items(s: &HashSet<ServerId>) -> (res: Vec<ServerId>)
    ensures
        res@.to_set() == s@,
        res@.no_duplicates(),
{
    client_items(s)
}

} // verus!
