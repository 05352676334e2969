use crate::state::{Error, ServerId};
use vstd::prelude::*;

verus! {

pub struct Hello {
    pub name: String,
}

pub struct Subnet {
    pub name: String,
}

pub struct Server {
    pub name: String,
    pub hub_lname: String,
}

pub struct Client {
    pub server: String,
    pub subnet: String,
    pub nick: String,
    pub ident: String,
    pub host: String,
    pub gecos: String,
}

pub struct SyncRequest {
    pub from: String,
}

pub struct SyncResponse {
    pub from: String,
    pub to: String,
}

/// What linked servers tell each other.
pub enum Message {
    Hello(Hello),
    Subnet(Subnet),
    Client(Client),
    Server(Server),
    SyncRequest(SyncRequest),
    SyncResponse(SyncResponse),
}

/// What the engine tells a link task.
pub enum Control {
    Send(Message),
    Close,
}

impl Message {
    /// A copy of the message, field for field.
    pub fn duplicate(&self) -> (res: Message)
        ensures
            res == *self,
    {
        match self {
            Message::Hello(m) => Message::Hello(Hello { name: m.name.clone() }),
            Message::Subnet(m) => Message::Subnet(Subnet { name: m.name.clone() }),
            Message::Client(m) => Message::Client(
                Client {
                    server: m.server.clone(),
                    subnet: m.subnet.clone(),
                    nick: m.nick.clone(),
                    ident: m.ident.clone(),
                    host: m.host.clone(),
                    gecos: m.gecos.clone(),
                },
            ),
            Message::Server(m) => Message::Server(
                Server { name: m.name.clone(), hub_lname: m.hub_lname.clone() },
            ),
            Message::SyncRequest(m) => Message::SyncRequest(SyncRequest { from: m.from.clone() }),
            Message::SyncResponse(m) => Message::SyncResponse(
                SyncResponse { from: m.from.clone(), to: m.to.clone() },
            ),
        }
    }
}

/// Whether a link has been accepted as a server yet.
pub enum LinkState {
    Fresh,
    Established(ServerId),
}

/// What a link does with a message from its peer.
pub enum LinkAction {
    /// Ask the engine to accept the peer under this server name.
    Register(String),
    /// Hand the message to the engine as coming from this server.
    Deliver(ServerId, Message),
}

impl LinkState {
    pub fn new() -> (res: LinkState)
        ensures
            res is Fresh,
    {
        LinkState::Fresh
    }

    /// A fresh link expects a `Hello` and registers the peer under its name; an
    /// established one delivers every message as coming from its peer.
    pub fn process(&self, msg: Message) -> (res: LinkAction)
        requires
            self is Fresh ==> msg is Hello,
        ensures
            match *self {
                LinkState::Fresh => res matches LinkAction::Register(name) && msg matches Message::Hello(h)
                    && name == h.name,
                LinkState::Established(id) => res == LinkAction::Deliver(id, msg),
            },
    {
        match self {
            LinkState::Fresh => match msg {
                Message::Hello(h) => LinkAction::Register(h.name),
                _ => {
                    proof {
                        assert(false);
                    }
                    LinkAction::Register(String::new())
                },
            },
            LinkState::Established(id) => LinkAction::Deliver(*id, msg),
        }
    }

    /// The engine's answer to a registration: the link is established under the new id.
    /// A refused link cannot go on.
    pub fn registered(&mut self, res: Result<ServerId, Error>)
        requires
            res is Ok,
        ensures
            *final(self) == LinkState::Established(res->Ok_0),
    {
        match res {
            Ok(id) => {
                *self = LinkState::Established(id);
            },
            Err(_) => {},
        }
    }
}

} // verus!
