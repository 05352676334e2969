use crate::link::{
    Client as LinkClient, Hello, Message, Subnet as LinkSubnet, SyncRequest, SyncResponse,
};
use crate::state::{below, client_items, clients_below, lowercase, server_drops, server_items,
    server_removed, Link,
    client_add_result, server_add_result, subnet_add_result, ClientId, Error, ServerId, State,
    SubnetId,
};
use queues::{IsQueue, Queue};
use vstd::prelude::*;

verus! {

broadcast use {vstd::std_specs::hash::group_hash_axioms, vstd::set_lib::group_set_lib_default};

#[verifier::external_type_specification]
#[verifier::external_body]
#[verifier::reject_recursive_types(T)]
pub struct ExQueue<T: Clone>(Queue<T>);

/// The items of a queue, oldest first.
pub uninterp spec fn queue_items(q: Queue<ServerId>) -> Seq<ServerId>;

/// Calls `Queue::new`: the queue starts empty.
#[verifier::external_body]
fn queue_new() -> (q: Queue<ServerId>)
    ensures
        queue_items(q) == Seq::<ServerId>::empty(),
{
    Queue::new()
}

/// Calls `Queue::add`, which pushes onto the back of the queue's vector and always
/// succeeds.
#[verifier::external_body]
fn queue_add(q: &mut Queue<ServerId>, v: ServerId)
    ensures
        queue_items(*final(q)) == queue_items(*old(q)).push(v),
{
    let _ = q.add(v);
}

/// Calls `Queue::remove`, which takes the oldest item, or fails on an empty queue.
#[verifier::external_body]
fn queue_remove(q: &mut Queue<ServerId>) -> (res: Option<ServerId>)
    ensures
        queue_items(*old(q)).len() == 0 ==> res is None && queue_items(*final(q)) == queue_items(
            *old(q),
        ),
        queue_items(*old(q)).len() > 0 ==> res == Some(queue_items(*old(q))[0]) && queue_items(
            *final(q),
        ) == queue_items(*old(q)).drop_first(),
{
    q.remove().ok()
}

/// A message sent to a linked server.
pub type Outgoing = (ServerId, Message);

/// The hub a server is linked under.
pub open spec fn parent(st: &State, x: ServerId) -> ServerId {
    st.servers()[x].link->0.hub
}

/// `m` announces server `x` to a peer: its name and its hub's lower-case name.
pub open spec fn announces(st: &State, x: ServerId, m: Message) -> bool {
    &&& m matches Message::Server(s)
    &&& s.name@ == st.servers()[x].name@
    &&& s.hub_lname@ == st.servers()[parent(st, x)].lname@
}

/// `order` names each server after its hub, unless the hub is the local server or the
/// peer.
pub open spec fn hubs_first(st: &State, peer: ServerId, order: Seq<ServerId>) -> bool {
    forall|i: int|
        #![trigger order[i]]
        0 <= i < order.len() ==> parent(st, order[i]) == 0 || parent(st, order[i]) == peer
            || order.take(i).contains(parent(st, order[i]))
}

/// `out` announces, to `peer`, every server but the local one and the peer, each once,
/// in the order `order`, which names hubs before the servers below them.
pub open spec fn server_burst(
    st: &State,
    peer: ServerId,
    out: Seq<Outgoing>,
    order: Seq<ServerId>,
) -> bool {
    &&& order.no_duplicates()
    &&& order.to_set() == st.servers().dom().remove(0).remove(peer)
    &&& hubs_first(st, peer, order)
    &&& out.len() == order.len()
    &&& forall|i: int| 0 <= i < out.len() ==> (#[trigger] out[i]).0 == peer && announces(st, order[i], out[i].1)
}

/// `out` names, to `peer`, every subnet once, in the order `order`.
pub open spec fn subnet_burst(
    st: &State,
    peer: ServerId,
    out: Seq<Outgoing>,
    order: Seq<SubnetId>,
) -> bool {
    &&& order.no_duplicates()
    &&& order.to_set() == st.subnets().dom()
    &&& out.len() == order.len()
    &&& forall|i: int|
        0 <= i < out.len() ==> (#[trigger] out[i]).0 == peer && (out[i].1 matches Message::Subnet(s)
            && s.name@ == st.subnets()[order[i]].name@)
}

/// How a node announces client `id`: under the lower-case names of its server and of
/// its subnet.
pub open spec fn client_message(st: &State, id: ClientId) -> LinkClient {
    let c = st.clients()[id];
    LinkClient {
        server: st.servers()[c.server].lname,
        subnet: st.subnets()[c.subnet].lname,
        nick: c.nick,
        ident: c.ident,
        host: c.host,
        gecos: c.gecos,
    }
}

/// `out` announces, to `peer`, every client once, in the order `order`.
pub open spec fn client_burst(
    st: &State,
    peer: ServerId,
    out: Seq<Outgoing>,
    order: Seq<ClientId>,
) -> bool {
    &&& order.no_duplicates()
    &&& order.to_set() == st.clients().dom()
    &&& out.len() == order.len()
    &&& forall|i: int|
        0 <= i < out.len() ==> #[trigger] out[i] == (peer, Message::Client(client_message(st, order[i])))
}

/// What a new peer is told: the servers, then the subnets, then the clients.
pub open spec fn burst(st: &State, peer: ServerId, out: Seq<Outgoing>) -> bool {
    exists|n: int, m: int, order: Seq<ServerId>, sorder: Seq<SubnetId>, corder: Seq<ClientId>|
        #![trigger server_burst(st, peer, out.subrange(0, n), order), subnet_burst(st, peer, out.subrange(n, m), sorder), client_burst(st, peer, out.subrange(m, out.len() as int), corder)]
        0 <= n <= m <= out.len() && server_burst(st, peer, out.subrange(0, n), order)
            && subnet_burst(st, peer, out.subrange(n, m), sorder) && client_burst(
            st,
            peer,
            out.subrange(m, out.len() as int),
            corder,
        )
}

/// The linked servers that a broadcast reaches: all but `skip`, in link order.
pub open spec fn targets(links: Seq<ServerId>, skip: Option<ServerId>) -> Seq<ServerId>
    decreases links.len(),
{
    if links.len() == 0 {
        Seq::empty()
    } else {
        let rest = targets(links.drop_last(), skip);
        if skip == Some(links.last()) {
            rest
        } else {
            rest.push(links.last())
        }
    }
}

/// A broadcast of `msg`: one copy to each target.
pub open spec fn broadcast_of(links: Seq<ServerId>, msg: Message, skip: Option<ServerId>) -> Seq<
    Outgoing,
> {
    targets(links, skip).map_values(|id: ServerId| (id, msg))
}

/// The targets of a broadcast are links, never the skipped one, each link but the
/// skipped one is a target, and distinct links give distinct targets.
proof fn lemma_targets(links: Seq<ServerId>, skip: Option<ServerId>)
    ensures
        forall|i: int|
            0 <= i < targets(links, skip).len() ==> Some(#[trigger] targets(links, skip)[i])
                != skip && links.contains(targets(links, skip)[i]),
        forall|l: ServerId| #[trigger] links.contains(l) && Some(l) != skip ==> targets(links, skip).contains(l),
        links.no_duplicates() ==> targets(links, skip).no_duplicates(),
    decreases links.len(),
{
    broadcast use vstd::seq_lib::group_seq_properties;

    if links.len() > 0 {
        let init = links.drop_last();
        let last = links.last();
        lemma_targets(init, skip);
        assert(links =~= init.push(last));
        let t0 = targets(init, skip);
        let t = targets(links, skip);
        assert forall|i: int| 0 <= i < t.len() implies Some(#[trigger] t[i]) != skip && links.contains(t[i]) by {
            if i < t0.len() {
                assert(t[i] == t0[i]);
            }
        }
        assert forall|l: ServerId| #[trigger] links.contains(l) && Some(l) != skip implies t.contains(l) by {
            if l != last {
                assert(init.contains(l));
            } else {
                assert(t[t.len() - 1] == last);
            }
        }
        if links.no_duplicates() {
            assert(init.no_duplicates()) by {
                assert forall|a: int, b: int| 0 <= a < init.len() && 0 <= b < init.len() && a != b implies init[a] != init[b] by {
                    assert(init[a] == links[a] && init[b] == links[b]);
                }
            }
            if skip != Some(last) {
                assert(!t0.contains(last)) by {
                    if t0.contains(last) {
                        let k = choose|k: int| 0 <= k < t0.len() && t0[k] == last;
                        assert(init.contains(t0[k]));
                        let j = choose|j: int| 0 <= j < init.len() && init[j] == last;
                        assert(links[j] == links[links.len() - 1]);
                    }
                }
                assert forall|a: int, b: int| 0 <= a < t.len() && 0 <= b < t.len() && a != b implies t[a] != t[b] by {
                    if a == t.len() - 1 {
                        assert(t[b] == t0[b]);
                    } else if b == t.len() - 1 {
                        assert(t[a] == t0[a]);
                    } else {
                        assert(t[a] == t0[a] && t[b] == t0[b]);
                    }
                }
            }
        }
    }
}

/// A broadcast carries `msg` unchanged, never goes back to the link it skips (the one a
/// message came from), reaches every other link, and, links being distinct, reaches
/// each once.
pub proof fn lemma_broadcast_reach(links: Seq<ServerId>, msg: Message, skip: Option<ServerId>)
    ensures
        forall|i: int|
            0 <= i < broadcast_of(links, msg, skip).len() ==> Some(
                (#[trigger] broadcast_of(links, msg, skip)[i]).0,
            ) != skip && broadcast_of(links, msg, skip)[i].1 == msg,
        forall|l: ServerId|
            #[trigger] links.contains(l) && Some(l) != skip ==> exists|i: int|
                0 <= i < broadcast_of(links, msg, skip).len() && #[trigger] broadcast_of(
                    links,
                    msg,
                    skip,
                )[i].0 == l,
        links.no_duplicates() ==> forall|i: int, j: int|
            0 <= i < j < broadcast_of(links, msg, skip).len() ==> #[trigger] broadcast_of(
                links,
                msg,
                skip,
            )[i].0 != #[trigger] broadcast_of(links, msg, skip)[j].0,
{
    lemma_targets(links, skip);
    let t = targets(links, skip);
    let b = broadcast_of(links, msg, skip);
    assert forall|l: ServerId| #[trigger] links.contains(l) && Some(l) != skip implies exists|i: int|
        0 <= i < b.len() && #[trigger] b[i].0 == l by {
        assert(t.contains(l));
        let k = choose|k: int| 0 <= k < t.len() && t[k] == l;
        assert(b[k].0 == l);
    }
}

/// Every server below the local one is reached from it through the downlinks.
proof fn lemma_reached(st: &State, done: Set<ServerId>, x: ServerId)
    requires
        st.wf(),
        done.contains(0),
        forall|y: ServerId, d: ServerId|
            #[trigger] done.contains(y) && st.servers()[y].downlinks@.contains(d) ==> #[trigger] done.contains(d),
        st.servers().contains_key(x),
    ensures
        done.contains(x),
    decreases x,
{
    if x != 0 {
        assert(st.server_ok(x));
        let p = parent(st, x);
        lemma_reached(st, done, p);
        assert(st.servers()[p].downlinks@.contains(x));
    }
}

/// Pushing an item that is not there keeps a sequence free of duplicates.
proof fn lemma_push_fresh(s: Seq<ServerId>, x: ServerId)
    requires
        s.no_duplicates(),
        !s.contains(x),
    ensures
        s.push(x).no_duplicates(),
        forall|y: ServerId| #[trigger] s.push(x).contains(y) <==> s.contains(y) || y == x,
{
    broadcast use vstd::seq_lib::group_seq_properties;

    assert forall|i: int, j: int| 0 <= i < s.push(x).len() && 0 <= j < s.push(x).len() && i != j implies s.push(x)[i] != s.push(x)[j] by {
        if i == s.len() {
            assert(s[j] == s.push(x)[j]);
        } else if j == s.len() {
            assert(s[i] == s.push(x)[i]);
        }
    }
}

/// Taking the first item off a sequence without duplicates leaves the others.
proof fn lemma_pop_front(s: Seq<ServerId>)
    requires
        s.len() > 0,
        s.no_duplicates(),
    ensures
        s.drop_first().no_duplicates(),
        forall|y: ServerId| #[trigger] s.drop_first().contains(y) <==> s.contains(y) && y != s[0],
{
    broadcast use vstd::seq_lib::group_seq_properties;

    assert(s =~= seq![s[0]] + s.drop_first());
    assert forall|y: ServerId| s.drop_first().contains(y) implies y != s[0] by {
        let k = choose|k: int| 0 <= k < s.drop_first().len() && s.drop_first()[k] == y;
        assert(s[k + 1] == y);
    }
}

/// Announces the servers to `peer`, walking the server tree breadth first from the
/// local server.
#[verifier::rlimit(40)]
#[verifier::spinoff_prover]
fn link_burst_servers(state: &State, peer: ServerId) -> (res: (Vec<Outgoing>, Ghost<Seq<ServerId>>))
    requires
        state.wf(),
        state.servers().contains_key(0),
    ensures
        server_burst(state, peer, res.0@, res.1@),
{
    let mut queue = queue_new();
    queue_add(&mut queue, 0);
    let ghost mut done: Set<ServerId> = Set::empty();
    let ghost mut order: Seq<ServerId> = Seq::empty();
    let mut out: Vec<Outgoing> = Vec::new();
    let ghost dom = state.servers().dom();
    proof {
        state.lemma_finite();
        lemma_push_fresh(Seq::empty(), 0);
        assert(order.to_set() =~= done.remove(0).remove(peer));
    }
    loop
        invariant
            state.wf(),
            dom == state.servers().dom(),
            dom.contains(0),
            dom.finite(),
            done.subset_of(dom),
            queue_items(queue).no_duplicates(),
            forall|x: ServerId| #[trigger]
                queue_items(queue).contains(x) ==> dom.contains(x) && !done.contains(x),
            forall|x: ServerId|
                #![trigger queue_items(queue).contains(x)]
                #![trigger done.contains(x)]
                (queue_items(queue).contains(x) || done.contains(x)) && x != 0 ==> done.contains(
                    parent(state, x),
                ),
            forall|y: ServerId, d: ServerId|
                #[trigger] done.contains(y) && #[trigger] state.servers()[y].downlinks@.contains(d)
                    ==> queue_items(queue).contains(d) || done.contains(d),
            queue_items(queue).contains(0) || done.contains(0),
            order.no_duplicates(),
            order.to_set() == done.remove(0).remove(peer),
            hubs_first(state, peer, order),
            out@.len() == order.len(),
            forall|i: int|
                0 <= i < out@.len() ==> (#[trigger] out@[i]).0 == peer && announces(
                    state,
                    order[i],
                    out@[i].1,
                ),
        ensures
            done == dom,
        decreases dom.len() - done.len(),
    {
        let ghost q0 = queue_items(queue);
        let next = queue_remove(&mut queue);
        let id = match next {
            None => {
                proof {
                    assert forall|x: ServerId| dom.contains(x) implies done.contains(x) by {
                        lemma_reached(state, done, x);
                    }
                    assert(done =~= dom);
                }
                break ;
            },
            Some(id) => id,
        };
        proof {
            broadcast use vstd::seq_lib::group_seq_properties;

            lemma_pop_front(q0);
            assert(q0[0] == id);
            assert(q0.contains(id));
            assert(state.server_ok(id));
        }
        let server = state.server_by_id(id);
        let ghost order0 = order;
        if id != 0 && id != peer {
            let name = server.name.clone();
            let hub = server.link.unwrap().hub;
            let hub_lname = state.server_by_id(hub).lname.clone();
            out.push((peer, Message::Server(crate::link::Server { name, hub_lname })));
            proof {
                assert(!order.to_set().contains(id));
                lemma_push_fresh(order, id);
                let h = parent(state, id);
                assert(done.contains(h));
                if h != 0 && h != peer {
                    assert(order.to_set().contains(h));
                    assert(order.push(id).take(order.len() as int) =~= order);
                }
                assert forall|i: int| 0 <= i < order.len() implies #[trigger] order.push(id).take(i)
                    == order.take(i) by {
                    assert(order.push(id).take(i) =~= order.take(i));
                }
                order = order.push(id);
            }
        }
        let downlinks = server_items(&server.downlinks);
        let mut i: usize = 0;
        while i < downlinks.len()
            invariant
                i <= downlinks.len(),
                downlinks@.no_duplicates(),
                downlinks@.to_set() == server.downlinks@,
                state.wf(),
                state.server_ok(id),
                *server == state.servers()[id],
                dom == state.servers().dom(),
                dom.contains(id),
                !done.contains(id),
                q0.contains(id),
                queue_items(queue).no_duplicates(),
                forall|x: ServerId| #[trigger]
                    queue_items(queue).contains(x) <==> (q0.contains(x) && x != id)
                        || downlinks@.take(i as int).contains(x),
                forall|x: ServerId| #[trigger]
                    q0.contains(x) ==> dom.contains(x) && !done.contains(x),
                forall|x: ServerId|
                    #![trigger q0.contains(x)]
                    #![trigger done.contains(x)]
                    (q0.contains(x) || done.contains(x)) && x != 0 ==> done.contains(
                        parent(state, x),
                    ),
            decreases downlinks.len() - i,
        {
            let d = downlinks[i];
            proof {
                broadcast use vstd::seq_lib::group_seq_properties;

                assert(downlinks@.to_set().contains(d));
                assert(server.downlinks@.contains(d));
                assert(parent(state, d) == id);
                assert(!downlinks@.take(i as int).contains(d)) by {
                    if downlinks@.take(i as int).contains(d) {
                        let k = choose|k: int| 0 <= k < i && downlinks@.take(i as int)[k] == d;
                        assert(downlinks@[k] == downlinks@[i as int]);
                    }
                }
                assert(!queue_items(queue).contains(d));
                lemma_push_fresh(queue_items(queue), d);
                assert(downlinks@.take(i + 1) =~= downlinks@.take(i as int).push(d));
            }
            queue_add(&mut queue, d);
            i = i + 1;
        }
        proof {
            broadcast use vstd::seq_lib::group_seq_properties;

            assert(downlinks@.take(downlinks@.len() as int) =~= downlinks@);
            let done0 = done;
            done = done.insert(id);
            assert forall|y: ServerId| #[trigger] order.to_set().contains(y) <==> done.remove(0).remove(peer).contains(y) by {
                assert(order0.to_set().contains(y) <==> order0.contains(y));
                assert(order.to_set().contains(y) <==> order.contains(y));
                assert(done0.remove(0).remove(peer).contains(y) <==> done0.contains(y) && y != 0 && y != peer);
            }
            assert(order.to_set() =~= done.remove(0).remove(peer));
            vstd::set_lib::lemma_len_subset(done, dom);
            assert forall|x: ServerId| #[trigger] queue_items(queue).contains(x) implies dom.contains(x) && !done.contains(x) by {
                if downlinks@.contains(x) {
                    assert(downlinks@.to_set().contains(x));
                    assert(server.downlinks@.contains(x));
                    assert(parent(state, x) == id);
                    assert(x != 0);
                    if done0.contains(x) {
                        assert(done0.contains(parent(state, x)));
                    }
                } else {
                    assert(q0.contains(x));
                }
            }
            assert forall|x: ServerId|
                #![trigger queue_items(queue).contains(x)]
                #![trigger done.contains(x)]
                (queue_items(queue).contains(x) || done.contains(x)) && x != 0 implies done.contains(
                    parent(state, x),
                ) by {
                if downlinks@.contains(x) {
                    assert(downlinks@.to_set().contains(x));
                }
            }
            assert forall|y: ServerId, d: ServerId|
                #[trigger] done.contains(y) && #[trigger] state.servers()[y].downlinks@.contains(d)
                    implies queue_items(queue).contains(d) || done.contains(d) by {
                if y == id {
                    assert(downlinks@.to_set().contains(d));
                }
            }
        }
    }
    (out, Ghost(order))
}

/// Names every subnet to `peer`.
fn link_burst_subnets(state: &State, peer: ServerId) -> (res: (Vec<Outgoing>, Ghost<Seq<SubnetId>>))
    ensures
        subnet_burst(state, peer, res.0@, res.1@),
{
    let ids = state.subnet_iter();
    let mut out: Vec<Outgoing> = Vec::new();
    let mut i: usize = 0;
    while i < ids.len()
        invariant
            i <= ids.len(),
            ids@.to_set() == state.subnets().dom(),
            out@.len() == i,
            forall|j: int|
                0 <= j < i ==> (#[trigger] out@[j]).0 == peer && (out@[j].1 matches Message::Subnet(s)
                    && s.name@ == state.subnets()[ids@[j]].name@),
        decreases ids.len() - i,
    {
        proof {
            assert(ids@.to_set().contains(ids@[i as int]));
        }
        let subnet = state.subnet_by_id(ids[i]);
        out.push((peer, Message::Subnet(crate::link::Subnet { name: subnet.name.clone() })));
        i = i + 1;
    }
    (out, Ghost(ids@))
}

/// The announcement of client `id`.
fn announce_client(state: &State, id: ClientId) -> (res: Message)
    requires
        state.wf(),
        state.clients().contains_key(id),
    ensures
        res == Message::Client(client_message(state, id)),
{
    proof {
        assert(state.client_ok(id));
    }
    let c = state.client_by_id(id);
    Message::Client(
        LinkClient {
            server: state.server_by_id(c.server).lname.clone(),
            subnet: state.subnet_by_id(c.subnet).lname.clone(),
            nick: c.nick.clone(),
            ident: c.ident.clone(),
            host: c.host.clone(),
            gecos: c.gecos.clone(),
        },
    )
}

/// Announces every client to `peer`.
fn link_burst_clients(state: &State, peer: ServerId) -> (res: (Vec<Outgoing>, Ghost<Seq<ClientId>>))
    requires
        state.wf(),
    ensures
        client_burst(state, peer, res.0@, res.1@),
{
    let ids = state.client_iter();
    let mut out: Vec<Outgoing> = Vec::new();
    let mut i: usize = 0;
    while i < ids.len()
        invariant
            i <= ids.len(),
            state.wf(),
            ids@.to_set() == state.clients().dom(),
            out@.len() == i,
            forall|j: int|
                0 <= j < i ==> #[trigger] out@[j] == (peer, Message::Client(client_message(state, ids@[j]))),
        decreases ids.len() - i,
    {
        proof {
            assert(ids@.to_set().contains(ids@[i as int]));
        }
        let m = announce_client(state, ids[i]);
        out.push((peer, m));
        i = i + 1;
    }
    (out, Ghost(ids@))
}

/// The messages a network node has to send, and the links it has to send them on.
pub struct Network {
    pub state: State,
    /// The servers linked directly to this one, in the order they were linked.
    pub links: Vec<ServerId>,
    /// The messages waiting to be sent, oldest first.
    pub outbox: Vec<Outgoing>,
}

impl Network {
    pub open spec fn links(&self) -> Seq<ServerId> {
        self.links@
    }

    pub open spec fn outbox(&self) -> Seq<Outgoing> {
        self.outbox@
    }

    /// The node's invariant: its state is well formed and holds the local server; the
    /// links are distinct remote servers, each linked directly under the local one; and
    /// every remote server lies below the link it is reached through.
    pub open spec fn wf(&self) -> bool {
        &&& self.state.wf()
        &&& self.state.servers().contains_key(0)
        &&& self.links().no_duplicates()
        &&& forall|i: int|
            0 <= i < self.links().len() ==> #[trigger] self.state.servers().contains_key(
                self.links()[i],
            ) && self.links()[i] != 0
        &&& forall|k: ServerId|
            #[trigger] self.state.servers().contains_key(k) && k != 0 ==> self.links().contains(
                self.state.servers()[k].link->0.route,
            )
        &&& forall|i: int|
            0 <= i < self.links().len() ==> #[trigger] self.state.servers()[self.links()[i]].link
                == Some(Link { hub: 0, route: self.links()[i] })
        &&& forall|k: ServerId|
            #[trigger] self.state.servers().contains_key(k) && k != 0 ==> below(
                &self.state,
                k,
                route(&self.state, k),
            )
    }

    pub fn new(server_name: String) -> (res: Network)
        ensures
            res.wf(),
            res.links() == Seq::<ServerId>::empty(),
            res.outbox() == Seq::<Outgoing>::empty(),
            res.state.clients().is_empty(),
            res.state.subnets().is_empty(),
            res.state.channels().is_empty(),
            res.state.servers().dom() == set![0u32],
            res.state.servers()[0].name@ == server_name@,
            res.state.servers()[0].lname@ == lowercase(server_name@),
            res.state.server_names() == map![lowercase(server_name@) => 0u32],
            res.state.subnet_names().is_empty(),
    {
        Network { state: State::new(server_name), links: Vec::new(), outbox: Vec::new() }
    }

    /// The linked servers, in the order they were linked.
    pub fn link_ids(&self) -> (res: Vec<ServerId>)
        ensures
            res@ == self.links(),
    {
        self.links.clone()
    }

    /// Hands out the messages waiting to be sent and empties the outbox.
    pub fn take_outbox(&mut self) -> (res: Vec<Outgoing>)
        ensures
            res@ == old(self).outbox(),
            final(self).outbox() == Seq::<Outgoing>::empty(),
            final(self).state == old(self).state,
            final(self).links() == old(self).links(),
    {
        let mut out: Vec<Outgoing> = Vec::new();
        std::mem::swap(&mut out, &mut self.outbox);
        out
    }

    /// Queues `msg` for every link but `skip`.
    fn broadcast(&mut self, msg: Message, skip: Option<ServerId>)
        ensures
            final(self).outbox() == old(self).outbox() + broadcast_of(old(self).links(), msg, skip),
            final(self).state == old(self).state,
            final(self).links() == old(self).links(),
    {
        let mut i: usize = 0;
        while i < self.links.len()
            invariant
                i <= self.links@.len(),
                self.state == old(self).state,
                self.links@ == old(self).links@,
                self.outbox@ == old(self).outbox@ + broadcast_of(
                    self.links@.subrange(0, i as int),
                    msg,
                    skip,
                ),
            decreases self.links@.len() - i,
        {
            let id = self.links[i];
            proof {
                assert(self.links@.subrange(0, i + 1).drop_last() =~= self.links@.subrange(
                    0,
                    i as int,
                ));
            }
            if Some(id) != skip {
                self.outbox.push((id, msg.duplicate()));
            }
            i = i + 1;
            proof {
                let t = self.links@.subrange(0, i as int);
                assert(broadcast_of(t, msg, skip) =~= broadcast_of(t.drop_last(), msg, skip) + (
                if skip == Some(t.last()) {
                    Seq::<Outgoing>::empty()
                } else {
                    seq![(t.last(), msg)]
                }));
            }
        }
        proof {
            assert(self.links@.subrange(0, self.links@.len() as int) =~= self.links@);
        }
    }
}

/// Two states with the same servers, linked the same way.
pub open spec fn same_routes(a: &State, b: &State) -> bool {
    &&& a.servers().dom() == b.servers().dom()
    &&& forall|k: ServerId| #[trigger] a.servers().contains_key(k) ==> b.servers()[k].link == a.servers()[k].link
}

/// The link that leads towards server `k`.
pub open spec fn route(st: &State, k: ServerId) -> ServerId {
    st.servers()[k].link->0.route
}

/// Whether a node accepts `msg` from linked server `from`: a subnet it does not know
/// yet, a client on a server and in a subnet it has names for, a sync request from a remote server, or a sync response from a server it has
/// a name for, to itself or to a server it knows.
pub open spec fn accepts(st: &State, from: ServerId, msg: Message) -> bool {
    match msg {
        Message::Subnet(s) => !st.subnet_names().contains_key(s.name@) && st.next_subnet_id()
            < u32::MAX,
        Message::Client(c) => {
            &&& st.server_names().contains_key(c.server@)
            &&& st.servers().contains_key(st.server_names()[c.server@])
            &&& st.subnet_names().contains_key(c.subnet@)
            &&& st.next_client_id() < u32::MAX
        },
        Message::SyncRequest(_) => st.servers().contains_key(from) && from != 0,
        Message::SyncResponse(r) => {
            let target = st.server_names()[r.to@];
            &&& st.server_names().contains_key(r.to@)
            &&& target == 0 ==> st.server_names().contains_key(r.from@)
            &&& target != 0 ==> st.servers().contains_key(target)
        },
        _ => false,
    }
}

/// Whether the nick of client `c`, announced by a linked server, was free in the
/// subnet it names, so that the client was added.
pub open spec fn client_arrived(old: &State, c: LinkClient) -> bool {
    let subnet = old.subnet_names()[c.subnet@];
    !old.subnets()[subnet].clients_by_lnick@.contains_key(lowercase(c.nick@))
}

/// What a client announced by a linked server leaves behind: the client added on the
/// server and in the subnet it names, or, where its nick is taken, nothing changed.
pub open spec fn client_added_from_net(old: &State, new: &State, c: LinkClient) -> bool {
    let server = old.server_names()[c.server@];
    let subnet = old.subnet_names()[c.subnet@];
    if client_arrived(old, c) {
        client_add_result(
            old,
            new,
            c.nick@,
            c.ident@,
            c.host@,
            c.gecos@,
            server,
            subnet,
            Ok(old.next_client_id()),
        )
    } else {
        *new == *old
    }
}

/// What lies below a server stays below it where every linked server keeps its link.
pub proof fn lemma_below_mono(a: &State, b: &State, x: ServerId, y: ServerId)
    requires
        below(a, x, y),
        forall|k: ServerId|
            #[trigger] a.servers().contains_key(k) && a.servers()[k].link is Some ==> b.servers().contains_key(k)
                && b.servers()[k].link == a.servers()[k].link,
    ensures
        below(b, x, y),
    decreases x,
{
    if x != y {
        lemma_below_mono(a, b, a.servers()[x].link->0.hub, y);
    }
}

/// What lay below a server before a removal still lies below it, where it was kept.
proof fn lemma_below_survives(old: &State, new: &State, id: ServerId, x: ServerId, a: ServerId)
    requires
        old.wf(),
        old.servers().contains_key(id),
        id != 0,
        server_removed(old, new, id),
        new.servers().contains_key(x),
        below(old, x, a),
    ensures
        below(new, x, a),
    decreases x,
{
    if x != a {
        assert(old.servers().contains_key(x));
        assert(old.server_ok(x));
        let h = old.servers()[x].link->0.hub;
        assert(new.servers()[x].link == old.servers()[x].link);
        assert(!below(old, x, id));
        assert(old.servers().contains_key(h));
        assert(new.servers().contains_key(h));
        lemma_below_survives(old, new, id, h, a);
    }
}

/// Once a node has handled the announcement of a client of another node, its subnet of
/// that name holds a client under the announced nick; where the nick was free, it is the
/// announced client, on the server of that name, with the announced nick, ident, host and
/// gecos.
pub proof fn lemma_announced_client_known(
    a: &State,
    id: ClientId,
    b0: &State,
    b1: &State,
    from: ServerId,
)
    requires
        a.wf(),
        a.clients().contains_key(id),
        b0.wf(),
        accepts(b0, from, Message::Client(client_message(a, id))),
        client_added_from_net(b0, b1, client_message(a, id)),
    ensures
        ({
            let m = client_message(a, id);
            let sn = b0.subnet_names()[m.subnet@];
            let l = lowercase(a.clients()[id].nick@);
            &&& b1.subnets()[sn].clients_by_lnick@.contains_key(l)
            &&& client_arrived(b0, m) ==> {
                let c = b1.clients()[b1.subnets()[sn].clients_by_lnick@[l]];
                &&& c.nick@ == a.clients()[id].nick@
                &&& c.ident@ == a.clients()[id].ident@
                &&& c.host@ == a.clients()[id].host@
                &&& c.gecos@ == a.clients()[id].gecos@
                &&& c.server == b0.server_names()[a.servers()[a.clients()[id].server].lname@]
            }
        }),
{
}

impl Network {
    /// A node whose state changed only within its servers' clients and its subnets
    /// stays well formed.
    proof fn lemma_wf_same_routes(old: &Network, new: &Network)
        requires
            old.wf(),
            new.state.wf(),
            same_routes(&old.state, &new.state),
            new.links() == old.links(),
        ensures
            new.wf(),
    {
        assert forall|k: ServerId| #[trigger]
            new.state.servers().contains_key(k) && k != 0 implies new.links().contains(
            new.state.servers()[k].link->0.route,
        ) by {
            assert(old.state.servers().contains_key(k));
        }
        assert forall|i: int| 0 <= i < new.links().len() implies #[trigger] new.state.servers().contains_key(
            new.links()[i],
        ) && new.links()[i] != 0 by {
            assert(old.state.servers().contains_key(old.links()[i]));
        }
        assert forall|i: int| 0 <= i < new.links().len() implies #[trigger] new.state.servers()[new.links()[i]].link
            == Some(Link { hub: 0, route: new.links()[i] }) by {
            assert(old.state.servers().contains_key(old.links()[i]));
            assert(old.state.servers()[old.links()[i]].link == Some(Link { hub: 0, route: old.links()[i] }));
        }
        assert forall|k: ServerId| #[trigger]
            new.state.servers().contains_key(k) && k != 0 implies below(&new.state, k, route(&new.state, k)) by {
            assert(old.state.servers().contains_key(k));
            lemma_below_mono(&old.state, &new.state, k, route(&old.state, k));
        }
    }

    /// Adds a client of this server to `subnet`.
    pub fn client_add(
        &mut self,
        subnet: SubnetId,
        nick: String,
        ident: String,
        host: String,
        gecos: String,
    ) -> (res: Result<ClientId, Error>)
        requires
            old(self).wf(),
            old(self).state.subnets().contains_key(subnet),
            old(self).state.next_client_id() < u32::MAX,
        ensures
            final(self).wf(),
            client_add_result(
                &old(self).state,
                &final(self).state,
                nick@,
                ident@,
                host@,
                gecos@,
                0,
                subnet,
                res,
            ),
            final(self).links() == old(self).links(),
            final(self).outbox() == old(self).outbox() + match res {
                Ok(id) => broadcast_of(
                    old(self).links(),
                    Message::Client(client_message(&final(self).state, id)),
                    None,
                ),
                Err(_) => Seq::<Outgoing>::empty(),
            },
    {
        let res = self.state.client_add(nick, ident, host, gecos, 0, subnet);
        proof {
            assert(same_routes(&old(self).state, &self.state));
            Network::lemma_wf_same_routes(old(self), self);
        }
        match res {
            Ok(id) => {
                let msg = announce_client(&self.state, id);
                self.broadcast(msg, None);
            },
            Err(_) => {
                assert(self.outbox@ =~= old(self).outbox@ + Seq::<Outgoing>::empty());
            },
        }
        res
    }

    /// Adds a client announced by linked server `from`, on the server and in the subnet
    /// it names, and passes the announcement on to the other links. A client whose nick
    /// is taken in that subnet is dropped.
    fn client_from_net(&mut self, msg: LinkClient, from: ServerId)
        requires
            old(self).wf(),
            accepts(&old(self).state, from, Message::Client(msg)),
        ensures
            final(self).wf(),
            final(self).links() == old(self).links(),
            client_arrived(&old(self).state, msg)
                ==> final(self).outbox() == old(self).outbox() + broadcast_of(
                old(self).links(),
                Message::Client(msg),
                Some(from),
            ),
            !client_arrived(&old(self).state, msg) ==> final(self).state
                == old(self).state && final(self).outbox() == old(self).outbox(),
            client_added_from_net(&old(self).state, &final(self).state, msg),
    {
        let server = self.state.server_by_name(msg.server.as_str()).unwrap();
        let subnet = self.state.subnet_by_name(msg.subnet.as_str()).unwrap();
        let res = self.state.client_add(
            msg.nick.clone(),
            msg.ident.clone(),
            msg.host.clone(),
            msg.gecos.clone(),
            server,
            subnet,
        );
        proof {
            assert(same_routes(&old(self).state, &self.state));
            Network::lemma_wf_same_routes(old(self), self);
        }
        match res {
            Ok(_) => {
                self.broadcast(Message::Client(msg), Some(from));
            },
            Err(_) => {},
        }
    }

    /// Adds a subnet and, when it is new, tells every linked server.
    pub fn subnet_add(&mut self, name: String) -> (res: Result<SubnetId, Error>)
        requires
            old(self).wf(),
            old(self).state.next_subnet_id() < u32::MAX,
        ensures
            final(self).wf(),
            subnet_add_result(&old(self).state, &final(self).state, name@, res),
            final(self).links() == old(self).links(),
            final(self).outbox() == old(self).outbox() + match res {
                Ok(id) => broadcast_of(
                    old(self).links(),
                    Message::Subnet(LinkSubnet { name: final(self).state.subnets()[id].name }),
                    None,
                ),
                Err(_) => Seq::<Outgoing>::empty(),
            },
    {
        let res = self.state.subnet_add(name);
        proof {
            assert(same_routes(&old(self).state, &self.state));
            Network::lemma_wf_same_routes(old(self), self);
        }
        match res {
            Ok(id) => {
                let name = self.state.subnet_by_id(id).name.clone();
                self.broadcast(Message::Subnet(LinkSubnet { name }), None);
            },
            Err(_) => {
                assert(self.outbox@ =~= old(self).outbox@ + Seq::<Outgoing>::empty());
            },
        }
        res
    }

    /// Asks every linked server to sync.
    pub fn sync(&mut self)
        requires
            old(self).wf(),
        ensures
            final(self).wf(),
            final(self).state == old(self).state,
            final(self).links() == old(self).links(),
            final(self).outbox() == old(self).outbox() + broadcast_of(
                old(self).links(),
                Message::SyncRequest(SyncRequest { from: old(self).state.servers()[0].name }),
                None,
            ),
    {
        let from = self.state.server_by_id(0).name.clone();
        self.broadcast(Message::SyncRequest(SyncRequest { from }), None);
    }

    /// Adds a subnet announced by linked server `from` and passes the announcement on
    /// to the other links.
    pub fn subnet_from_net(&mut self, msg: LinkSubnet, from: ServerId)
        requires
            old(self).wf(),
            !old(self).state.subnet_names().contains_key(msg.name@),
            old(self).state.next_subnet_id() < u32::MAX,
        ensures
            final(self).wf(),
            subnet_add_result(
                &old(self).state,
                &final(self).state,
                msg.name@,
                Ok(old(self).state.next_subnet_id()),
            ),
            final(self).links() == old(self).links(),
            final(self).outbox() == old(self).outbox() + broadcast_of(
                old(self).links(),
                Message::Subnet(msg),
                Some(from),
            ),
    {
        let res = self.state.subnet_add(msg.name.clone());
        proof {
            assert(same_routes(&old(self).state, &self.state));
            Network::lemma_wf_same_routes(old(self), self);
        }
        self.broadcast(Message::Subnet(msg), Some(from));
    }

    /// Passes a sync request from linked server `from` on to the other links, and
    /// answers it towards `from`.
    fn sync_request(&mut self, msg: SyncRequest, from: ServerId)
        requires
            old(self).wf(),
            old(self).state.servers().contains_key(from),
            from != 0,
        ensures
            final(self).wf(),
            final(self).state == old(self).state,
            final(self).links() == old(self).links(),
            final(self).outbox() == old(self).outbox() + broadcast_of(
                old(self).links(),
                Message::SyncRequest(msg),
                Some(from),
            ) + seq![
                (
                    route(&old(self).state, from),
                    Message::SyncResponse(
                        SyncResponse { from: old(self).state.servers()[0].lname, to: msg.from },
                    ),
                ),
            ],
    {
        let to = msg.from.clone();
        self.broadcast(Message::SyncRequest(msg), Some(from));
        let lname = self.state.server_by_id(0).lname.clone();
        self.route_to(from, Message::SyncResponse(SyncResponse { from: lname, to }));
    }

    /// Queues `msg` on the link that leads to server `target`.
    fn route_to(&mut self, target: ServerId, msg: Message)
        requires
            old(self).wf(),
            old(self).state.servers().contains_key(target),
            target != 0,
        ensures
            final(self).wf(),
            final(self).state == old(self).state,
            final(self).links() == old(self).links(),
            final(self).outbox() == old(self).outbox().push((route(&old(self).state, target), msg)),
    {
        proof {
            assert(self.state.server_ok(target));
        }
        let server = self.state.server_by_id(target);
        let route = server.link.unwrap().route;
        self.outbox.push((route, msg));
    }

    /// Queues, for new peer `peer`, the servers and the subnets this node knows.
    fn link_burst(&mut self, peer: ServerId)
        requires
            old(self).wf(),
        ensures
            final(self).wf(),
            final(self).state == old(self).state,
            final(self).links() == old(self).links(),
            final(self).outbox().len() >= old(self).outbox().len(),
            final(self).outbox().subrange(0, old(self).outbox().len() as int) == old(self).outbox(),
            burst(
                &old(self).state,
                peer,
                final(self).outbox().subrange(
                    old(self).outbox().len() as int,
                    final(self).outbox().len() as int,
                ),
            ),
    {
        let (mut servers, Ghost(order)) = link_burst_servers(&self.state, peer);
        let (mut subnets, Ghost(sorder)) = link_burst_subnets(&self.state, peer);
        let (mut clients, Ghost(corder)) = link_burst_clients(&self.state, peer);
        let ghost s0 = servers@;
        let ghost s1 = subnets@;
        let ghost s2 = clients@;
        let ghost b = servers@ + subnets@ + clients@;
        servers.append(&mut subnets);
        servers.append(&mut clients);
        self.outbox.append(&mut servers);
        proof {
            let n = old(self).outbox@.len() as int;
            let out = self.outbox@.subrange(n, self.outbox@.len() as int);
            assert(self.outbox@.subrange(0, n) =~= old(self).outbox@);
            assert(out =~= b);
            let k = s0.len() as int;
            let m = k + s1.len();
            assert(out.subrange(0, k) =~= s0);
            assert(out.subrange(k, m) =~= s1);
            assert(out.subrange(m, out.len() as int) =~= s2);
            assert(server_burst(&self.state, peer, out.subrange(0, k), order));
            assert(subnet_burst(&self.state, peer, out.subrange(k, m), sorder));
            assert(client_burst(&self.state, peer, out.subrange(m, out.len() as int), corder));
        }
    }
}

impl Network {
    /// Links a new server under the local one, under `name`, and queues for it what
    /// this node knows.
    pub fn link_new(&mut self, name: String) -> (res: Result<ServerId, Error>)
        requires
            old(self).wf(),
            old(self).state.next_server_id() < u32::MAX,
        ensures
            final(self).wf(),
            server_add_result(&old(self).state, &final(self).state, name@, 0, res),
            match res {
                Ok(id) => {
                    &&& final(self).links() == old(self).links().push(id)
                    &&& final(self).outbox().len() >= old(self).outbox().len()
                    &&& final(self).outbox().subrange(0, old(self).outbox().len() as int)
                        == old(self).outbox()
                    &&& burst(
                        &final(self).state,
                        id,
                        final(self).outbox().subrange(
                            old(self).outbox().len() as int,
                            final(self).outbox().len() as int,
                        ),
                    )
                },
                Err(_) => final(self).links() == old(self).links() && final(self).outbox()
                    == old(self).outbox(),
            },
    {
        let res = self.state.server_add(name, 0);
        let id = match res {
            Ok(id) => id,
            Err(err) => {
                return Err(err);
            },
        };
        proof {
            let st = &old(self).state;
            assert(st.server_ok(0));
            assert(!self.links@.contains(id)) by {
                if self.links@.contains(id) {
                    let i = choose|i: int| 0 <= i < self.links@.len() && self.links@[i] == id;
                    assert(st.servers().contains_key(self.links@[i]));
                    assert(st.server_ok(id));
                }
            }
        }
        self.links.push(id);
        proof {
            let st = &old(self).state;
            assert forall|i: int| 0 <= i < self.links().len() implies #[trigger] self.state.servers().contains_key(
                self.links()[i],
            ) && self.links()[i] != 0 by {
                if i < old(self).links().len() {
                    assert(old(self).links()[i] == self.links()[i]);
                    assert(st.servers().contains_key(old(self).links()[i]));
                }
            }
            assert forall|k: ServerId| #[trigger]
                self.state.servers().contains_key(k) && k != 0 implies self.links().contains(
                self.state.servers()[k].link->0.route,
            ) by {
                if k != id {
                    assert(st.servers().contains_key(k));
                    let r = st.servers()[k].link->0.route;
                    assert(old(self).links().contains(r));
                    let j = choose|j: int| 0 <= j < old(self).links().len() && old(self).links()[j] == r;
                    assert(self.links()[j] == r);
                } else {
                    assert(self.links()[self.links().len() - 1] == id);
                }
            }
            assert forall|i: int| 0 <= i < self.links().len() implies #[trigger] self.state.servers()[self.links()[i]].link
                == Some(Link { hub: 0, route: self.links()[i] }) by {
                if i < old(self).links().len() {
                    assert(old(self).links()[i] == self.links()[i]);
                    assert(st.servers().contains_key(old(self).links()[i]));
                }
            }
            assert forall|k: ServerId| #[trigger]
                self.state.servers().contains_key(k) && k != 0 implies below(&self.state, k, route(&self.state, k)) by {
                if k != id {
                    assert(st.servers().contains_key(k));
                    assert forall|j: ServerId|
                        #[trigger] st.servers().contains_key(j) && st.servers()[j].link is Some implies self.state.servers().contains_key(j)
                            && self.state.servers()[j].link == st.servers()[j].link by {
                        assert(st.server_ok(j));
                    }
                    lemma_below_mono(st, &self.state, k, route(st, k));
                }
            }
            assert forall|a: int, b: int| 0 <= a < self.links().len() && 0 <= b < self.links().len() && a != b implies self.links()[a] != self.links()[b] by {
                if a == self.links().len() - 1 {
                    assert(old(self).links().contains(self.links()[b]));
                } else if b == self.links().len() - 1 {
                    assert(old(self).links().contains(self.links()[a]));
                }
            }
        }
        self.link_burst(id);
        Ok(id)
    }

    /// The greeting this node sends on a new link: its own name.
    pub fn hello(&self) -> (res: Message)
        requires
            self.wf(),
        ensures
            res == Message::Hello(Hello { name: self.state.servers()[0].name }),
    {
        Message::Hello(Hello { name: self.state.server_by_id(0).name.clone() })
    }

    /// Whether `on_link_message` takes `msg` from linked server `from`.
    pub fn accepts_message(&self, from: ServerId, msg: &Message) -> (res: bool)
        requires
            self.wf(),
        ensures
            res == accepts(&self.state, from, *msg),
    {
        match msg {
            Message::Subnet(s) => self.state.subnet_by_name(s.name.as_str()).is_none()
                && self.state.has_subnet_id(),
            Message::Client(c) => match self.state.server_by_name(c.server.as_str()) {
                Some(server) => self.state.has_server(server) && self.state.subnet_by_name(
                    c.subnet.as_str(),
                ).is_some() && self.state.has_client_id(),
                None => false,
            },
            Message::SyncRequest(_) => from != 0 && self.state.has_server(from),
            Message::SyncResponse(r) => match self.state.server_by_name(r.to.as_str()) {
                Some(target) => if target == 0 {
                    self.state.server_by_name(r.from.as_str()).is_some()
                } else {
                    self.state.has_server(target)
                },
                None => false,
            },
            _ => false,
        }
    }

    /// Handles a message from linked server `from`. A sync response addressed to this
    /// node gives the server that answered, for the node's handler; any other message
    /// changes the state or queues messages, and gives `None`.
    pub fn on_link_message(&mut self, from: ServerId, msg: Message) -> (res: Option<ServerId>)
        requires
            old(self).wf(),
            accepts(&old(self).state, from, msg),
        ensures
            final(self).wf(),
            final(self).links() == old(self).links(),
            match msg {
                Message::Subnet(s) => {
                    &&& res is None
                    &&& subnet_add_result(
                        &old(self).state,
                        &final(self).state,
                        s.name@,
                        Ok(old(self).state.next_subnet_id()),
                    )
                    &&& final(self).outbox() == old(self).outbox() + broadcast_of(
                        old(self).links(),
                        Message::Subnet(s),
                        Some(from),
                    )
                },
                Message::Client(c) => {
                    &&& res is None
                    &&& client_added_from_net(&old(self).state, &final(self).state, c)
                    &&& final(self).outbox() == old(self).outbox() + if client_arrived(&old(self).state, c) {
                        broadcast_of(old(self).links(), Message::Client(c), Some(from))
                    } else {
                        Seq::<Outgoing>::empty()
                    }
                },
                Message::SyncRequest(r) => {
                    &&& res is None
                    &&& final(self).state == old(self).state
                    &&& final(self).outbox() == old(self).outbox() + broadcast_of(
                        old(self).links(),
                        Message::SyncRequest(r),
                        Some(from),
                    ) + seq![
                        (
                            route(&old(self).state, from),
                            Message::SyncResponse(
                                SyncResponse {
                                    from: old(self).state.servers()[0].lname,
                                    to: r.from,
                                },
                            ),
                        ),
                    ]
                },
                Message::SyncResponse(r) => {
                    let target = old(self).state.server_names()[r.to@];
                    &&& final(self).state == old(self).state
                    &&& target == 0 ==> res == Some(old(self).state.server_names()[r.from@])
                        && final(self).outbox() == old(self).outbox()
                    &&& target != 0 ==> res is None && final(self).outbox() == old(
                        self,
                    ).outbox().push((route(&old(self).state, target), Message::SyncResponse(r)))
                },
                _ => false,
            },
    {
        match msg {
            Message::Subnet(subnet) => {
                self.subnet_from_net(subnet, from);
                None
            },
            Message::Client(c) => {
                self.client_from_net(c, from);
                proof {
                    if !client_arrived(&old(self).state, c) {
                        assert(self.outbox@ =~= old(self).outbox@ + Seq::<Outgoing>::empty());
                    }
                }
                None
            },
            Message::SyncRequest(req) => {
                self.sync_request(req, from);
                None
            },
            Message::SyncResponse(resp) => {
                let target = self.state.server_by_name(resp.to.as_str()).unwrap();
                if target == 0 {
                    let origin = self.state.server_by_name(resp.from.as_str()).unwrap();
                    Some(origin)
                } else {
                    self.route_to(target, Message::SyncResponse(resp));
                    None
                }
            },
            _ => {
                proof {
                    assert(false);
                }
                None
            },
        }
    }
}


/// What closing the link to server `id` leaves of the state: the clients on `id` and on
/// the servers below it are gone, and so are those servers; the local server no longer
/// lists `id` below it; every other server, subnet and name is kept.
pub open spec fn split_off(old: &State, new: &State, id: ServerId) -> bool {
    &&& new.clients() == old.clients().remove_keys(clients_below(old, id))
    &&& forall|x: ServerId|
        #[trigger] new.servers().contains_key(x) <==> old.servers().contains_key(x) && !below(
            old,
            x,
            id,
        )
    &&& forall|x: ServerId|
        #[trigger] new.servers().contains_key(x) && x != 0 ==> new.servers()[x] == old.servers()[x]
    &&& server_drops(old.servers()[0], new.servers()[0], id)
    &&& new.subnets().dom() == old.subnets().dom()
    &&& forall|k: SubnetId|
        #[trigger] new.subnets().contains_key(k) ==> {
            &&& new.subnets()[k].id == old.subnets()[k].id
            &&& new.subnets()[k].name@ == old.subnets()[k].name@
            &&& new.subnets()[k].lname@ == old.subnets()[k].lname@
        }
    &&& new.channels() == old.channels()
    &&& new.server_names() == old.server_names()
    &&& new.subnet_names() == old.subnet_names()
    &&& new.next_client_id() == old.next_client_id()
    &&& new.next_server_id() == old.next_server_id()
    &&& new.next_subnet_id() == old.next_subnet_id()
    &&& new.next_channel_id() == old.next_channel_id()
}

/// After a split, a client stays exactly when its server stays.
pub proof fn lemma_split_keeps_clients_of_kept_servers(old: &State, new: &State, id: ServerId)
    requires
        old.wf(),
        split_off(old, new, id),
    ensures
        forall|c: ClientId|
            #[trigger] old.clients().contains_key(c) ==> (new.clients().contains_key(c)
                <==> new.servers().contains_key(old.clients()[c].server)),
{
    assert forall|c: ClientId| #[trigger] old.clients().contains_key(c) implies (new.clients().contains_key(c)
        <==> new.servers().contains_key(old.clients()[c].server)) by {
        assert(old.client_ok(c));
    }
}

impl Network {
    /// The link to server `id` closed: the servers behind it and their clients leave
    /// the network, and the link is dropped.
    pub fn link_closed(&mut self, id: ServerId)
        requires
            old(self).wf(),
            old(self).links().contains(id),
        ensures
            final(self).wf(),
            split_off(&old(self).state, &final(self).state, id),
            exists|i: int|
                0 <= i < old(self).links().len() && old(self).links()[i] == id && final(self).links()
                    == old(self).links().remove(i),
            final(self).outbox() == old(self).outbox(),
    {
        let ghost st0 = self.state;
        let ghost idx = choose|i: int| 0 <= i < old(self).links().len() && old(self).links()[i] == id;
        proof {
            assert(st0.servers().contains_key(old(self).links()[idx]));
            assert(st0.servers()[id].link == Some(Link { hub: 0, route: id }));
        }
        let affected = self.state.calculate_netsplit_affected_clients(id);
        let items = client_items(&affected);
        let mut i: usize = 0;
        while i < items.len()
            invariant
                i <= items.len(),
                items@.to_set() == clients_below(&st0, id),
                items@.no_duplicates(),
                st0.wf(),
                st0.servers().contains_key(id),
                self.state.wf(),
                self.links == old(self).links,
                self.outbox == old(self).outbox,
                forall|c: ClientId|
                    #[trigger] self.state.clients().contains_key(c) <==> st0.clients().contains_key(c)
                        && !items@.take(i as int).contains(c),
                forall|c: ClientId|
                    #[trigger] self.state.clients().contains_key(c) ==> self.state.clients()[c]
                        == st0.clients()[c],
                self.state.servers().dom() == st0.servers().dom(),
                forall|x: ServerId|
                    #[trigger] st0.servers().contains_key(x) ==> self.state.servers()[x].link
                        == st0.servers()[x].link,
                forall|x: ServerId|
                    #[trigger] st0.servers().contains_key(x) && !below(&st0, x, id)
                        ==> self.state.servers()[x] == st0.servers()[x],
                self.state.subnets().dom() == st0.subnets().dom(),
                forall|k: SubnetId|
                    #[trigger] self.state.subnets().contains_key(k) ==> {
                        &&& self.state.subnets()[k].id == st0.subnets()[k].id
                        &&& self.state.subnets()[k].name@ == st0.subnets()[k].name@
                        &&& self.state.subnets()[k].lname@ == st0.subnets()[k].lname@
                    },
                self.state.channels() == st0.channels(),
                self.state.server_names() == st0.server_names(),
                self.state.subnet_names() == st0.subnet_names(),
                self.state.next_client_id() == st0.next_client_id(),
                self.state.next_server_id() == st0.next_server_id(),
                self.state.next_subnet_id() == st0.next_subnet_id(),
                self.state.next_channel_id() == st0.next_channel_id(),
            decreases items.len() - i,
        {
            let c = items[i];
            let ghost prev = self.state;
            proof {
                assert(items@.to_set().contains(c));
                assert(!items@.take(i as int).contains(c)) by {
                    if items@.take(i as int).contains(c) {
                        let j = choose|j: int| 0 <= j < i && items@.take(i as int)[j] == c;
                        assert(items@[j] == items@[i as int]);
                    }
                }
                assert(items@.take(i + 1) =~= items@.take(i as int).push(c));
                assert(clients_below(&st0, id).contains(c));
                assert(st0.clients().contains_key(c));
                assert(self.state.clients().contains_key(c));
                assert(below(&st0, st0.clients()[c].server, id));
            }
            self.state.client_remove(c);
            proof {
                assert forall|x: ClientId|
                    #[trigger] self.state.clients().contains_key(x) <==> st0.clients().contains_key(x)
                        && !items@.take(i + 1).contains(x) by {
                    let t = items@.take(i as int);
                    assert(items@.take(i + 1) == t.push(c));
                    if x == c {
                        assert(t.push(c)[t.len() as int] == c);
                    }
                    if t.contains(x) {
                        let w = choose|w: int| 0 <= w < t.len() && t[w] == x;
                        assert(t.push(c)[w] == x);
                    }
                    if t.push(c).contains(x) && x != c {
                        let w = choose|w: int| 0 <= w < t.len() + 1 && t.push(c)[w] == x;
                        assert(t[w] == x);
                    }
                    assert(prev.clients().contains_key(x) <==> st0.clients().contains_key(x)
                        && !items@.take(i as int).contains(x));
                }
                assert forall|x: ServerId|
                    #[trigger] st0.servers().contains_key(x) && !below(&st0, x, id) implies self.state.servers()[x]
                        == st0.servers()[x] by {
                    assert(x != prev.clients()[c].server);
                }
            }
            i = i + 1;
        }
        proof {
            assert(items@.take(i as int) =~= items@);
            let cur = &self.state;
            assert forall|k: ServerId|
                #[trigger] cur.servers().contains_key(k) && cur.servers()[k].link is Some implies st0.servers().contains_key(k)
                    && st0.servers()[k].link == cur.servers()[k].link by {
            }
            assert forall|k: ServerId|
                #[trigger] st0.servers().contains_key(k) && st0.servers()[k].link is Some implies cur.servers().contains_key(k)
                    && cur.servers()[k].link == st0.servers()[k].link by {
            }
            assert forall|k: ServerId| #[trigger]
                cur.servers().contains_key(k) && below(cur, k, id) implies cur.servers()[k].clients@.is_empty() by {
                lemma_below_mono(cur, &st0, k, id);
                assert(cur.server_ok(k));
                if !cur.servers()[k].clients@.is_empty() {
                    let c = choose|c: ClientId| cur.servers()[k].clients@.contains(c);
                    assert(cur.clients().contains_key(c));
                    assert(clients_below(&st0, id).contains(c));
                    assert(items@.to_set().contains(c));
                }
            }
        }
        let ghost cur = self.state;
        self.state.server_remove(id);
        let mut j: usize = 0;
        while j < self.links.len() && self.links[j] != id
            invariant
                0 <= j <= idx,
                idx < self.links@.len(),
                self.links@[idx] == id,
            decreases idx - j,
        {
            j = j + 1;
        }
        proof {
            assert(old(self).links().no_duplicates());
            assert(j == idx);
        }
        self.links.remove(j);
        proof {
            let fin = &self.state;
            assert forall|x: ServerId| below(&cur, x, id) <==> below(&st0, x, id) by {
                if below(&cur, x, id) {
                    lemma_below_mono(&cur, &st0, x, id);
                }
                if below(&st0, x, id) {
                    lemma_below_mono(&st0, &cur, x, id);
                }
            }
            assert(!below(&st0, 0, id));
            assert(fin.clients() =~= st0.clients().remove_keys(clients_below(&st0, id)));
            assert forall|x: ServerId| #[trigger]
                fin.servers().contains_key(x) && x != 0 implies fin.servers()[x] == st0.servers()[x] by {
                assert(below(&cur, x, id) <==> below(&st0, x, id));
            }
            assert(old(self).links().remove(idx) == self.links());
            assert forall|i: int| 0 <= i < self.links().len() implies #[trigger] fin.servers().contains_key(
                self.links()[i],
            ) && self.links()[i] != 0 && fin.servers()[self.links()[i]].link == Some(
                Link { hub: 0, route: self.links()[i] },
            ) by {
                let oi = if i < idx { i } else { i + 1 };
                assert(self.links()[i] == old(self).links()[oi]);
                assert(st0.servers().contains_key(old(self).links()[oi]));
                let l = self.links()[i];
                assert(l != id);
                assert(!below(&st0, l, id));
                assert(below(&cur, l, id) <==> below(&st0, l, id));
            }
            assert forall|k: ServerId|
                #[trigger] fin.servers().contains_key(k) && k != 0 implies self.links().contains(
                fin.servers()[k].link->0.route,
            ) && below(fin, k, route(fin, k)) by {
                assert(below(&cur, k, id) <==> below(&st0, k, id));
                assert(st0.servers().contains_key(k));
                let r = route(&st0, k);
                assert(below(&st0, k, r));
                assert(old(self).links().contains(r));
                if r == id {
                    assert(below(&st0, k, id));
                }
                let oi = choose|oi: int| 0 <= oi < old(self).links().len() && old(self).links()[oi] == r;
                assert(oi != idx);
                let ni = if oi < idx { oi } else { oi - 1 };
                assert(self.links()[ni] == r);
                lemma_below_mono(&st0, &cur, k, r);
                lemma_below_survives(&cur, fin, id, k, r);
            }
            assert forall|x: ServerId|
                #[trigger] fin.servers().contains_key(x) <==> st0.servers().contains_key(x) && !below(
                    &st0,
                    x,
                    id,
                ) by {
                assert(below(&cur, x, id) <==> below(&st0, x, id));
            }
            assert(fin.servers().contains_key(0));
            assert(self.links().no_duplicates());
            assert forall|i: int|
                0 <= i < self.links().len() implies #[trigger] self.state.servers()[self.links()[i]].link
                    == Some(Link { hub: 0, route: self.links()[i] }) by {
                assert(fin.servers().contains_key(self.links()[i]));
            }
        }
    }
}

} // verus!
