use crate::client::ClientEvent;
use crate::irc::IrcPrivateMessage;
use crate::link::Message;
use crate::network::{broadcast_of, client_message, Network};
use crate::state::{client_add_result, ClientId, Error};
use vstd::prelude::*;
use vstd::string::StringSliceAdditionalSpecFns;
use vstd::utf8::{decode_utf8, encode_utf8_decode_utf8};

verus! {

/// The lines that welcome client `nick` to server `server`, in the order they are sent.
pub open spec fn welcome_text(server: Seq<char>, nick: Seq<char>) -> Seq<Seq<char>> {
    seq![
        ":"@ + server + " 001 "@ + nick + " :Welcome to the NAME Internet Relay Chat Network "@
            + nick + "\r\n"@,
        ":"@ + server + " 002 "@ + nick + " :Your host is "@ + server
            + ", running version VERSION\r\n"@,
        ":"@ + server + " 003 "@ + nick + " :This server was created DATE\r\n"@,
        ":"@ + server + " 004 "@ + nick + " "@ + server
            + " gossamircd-0.1 CDGNRSUWagilopqrswxyz BCIMNORSabcehiklmnopqstvz Iabehkloqv\r\n"@,
        ":"@ + server + " 005 "@ + nick
            + " CALLERID CASEMAPPING=rfc1459 DEAF=D KICKLEN=180 MODES=4 PREFIX=(qaohv)~&@%+ STATUSMSG=~&@%+ EXCEPTS=e INVEX=I NICKLEN=30 NETWORK=Rizon MAXLIST=beI:250 MAXTARGETS=4 :are supported by this server\r\n"@,
        ":"@ + server + " 005 "@ + nick
            + " CHANTYPES=# CHANLIMIT=#:250 CHANNELLEN=50 TOPICLEN=390 CHANMODES=beI,k,l,BCMNORScimnpstz WATCH=60 NAMESX UHNAMES AWAYLEN=180 ELIST=CMNTU SAFELIST KNOCK :are supported by this server\r\n"@,
        ":"@ + server + " MODE "@ + nick + " :+ix\r\n"@,
    ]
}

/// No carriage return and no line feed.
pub open spec fn no_eol(s: Seq<char>) -> bool {
    forall|j: int| 0 <= j < s.len() ==> #[trigger] s[j] != '\r' && s[j] != '\n'
}

/// One IRC line: text without line ends, then `\r\n`.
pub open spec fn one_line(s: Seq<char>) -> bool {
    &&& s.len() >= 2
    &&& s[s.len() - 2] == '\r'
    &&& s[s.len() - 1] == '\n'
    &&& no_eol(s.take(s.len() - 2))
}

proof fn lemma_no_eol_concat(a: Seq<char>, b: Seq<char>)
    requires
        no_eol(a),
        no_eol(b),
    ensures
        no_eol(a + b),
{
    assert forall|j: int| 0 <= j < (a + b).len() implies #[trigger] (a + b)[j] != '\r' && (a
        + b)[j] != '\n' by {
        if j < a.len() {
            assert((a + b)[j] == a[j]);
        } else {
            assert((a + b)[j] == b[j - a.len()]);
        }
    }
}

proof fn lemma_line_concat(a: Seq<char>, b: Seq<char>)
    requires
        no_eol(a),
        one_line(b),
    ensures
        one_line(a + b),
{
    let c = a + b;
    assert(c.take(c.len() - 2) =~= a + b.take(b.len() - 2));
    lemma_no_eol_concat(a, b.take(b.len() - 2));
    assert(c[c.len() - 2] == b[b.len() - 2]);
    assert(c[c.len() - 1] == b[b.len() - 1]);
}

proof fn lemma_text_0()
    ensures
        no_eol(":"@),
{
    reveal_strlit(":");
}

proof fn lemma_text_1()
    ensures
        no_eol(" 001 "@),
{
    reveal_strlit(" 001 ");
}

proof fn lemma_text_2()
    ensures
        no_eol(" :Welcome to the NAME Internet Relay Chat Network "@),
{
    reveal_strlit(" :Welcome to the NAME Internet Relay Chat Network ");
}

proof fn lemma_text_3()
    ensures
        no_eol(" 002 "@),
{
    reveal_strlit(" 002 ");
}

proof fn lemma_text_4()
    ensures
        no_eol(" :Your host is "@),
{
    reveal_strlit(" :Your host is ");
}

proof fn lemma_text_5()
    ensures
        no_eol(" 003 "@),
{
    reveal_strlit(" 003 ");
}

proof fn lemma_text_6()
    ensures
        no_eol(" 004 "@),
{
    reveal_strlit(" 004 ");
}

proof fn lemma_text_7()
    ensures
        no_eol(" "@),
{
    reveal_strlit(" ");
}

proof fn lemma_text_8()
    ensures
        no_eol(" 005 "@),
{
    reveal_strlit(" 005 ");
}

proof fn lemma_text_9()
    ensures
        no_eol(" MODE "@),
{
    reveal_strlit(" MODE ");
}

proof fn lemma_end_0()
    ensures
        one_line("\r\n"@),
{
    reveal_strlit("\r\n");
    reveal_strlit("");
    assert("\r\n"@.take("\r\n"@.len() - 2) =~= ""@);
}

proof fn lemma_end_1()
    ensures
        one_line(", running version VERSION\r\n"@),
{
    reveal_strlit(", running version VERSION\r\n");
    reveal_strlit(", running version VERSION");
    assert(", running version VERSION\r\n"@.take(", running version VERSION\r\n"@.len() - 2) =~= ", running version VERSION"@);
}

proof fn lemma_end_2()
    ensures
        one_line(" :This server was created DATE\r\n"@),
{
    reveal_strlit(" :This server was created DATE\r\n");
    reveal_strlit(" :This server was created DATE");
    assert(" :This server was created DATE\r\n"@.take(" :This server was created DATE\r\n"@.len() - 2) =~= " :This server was created DATE"@);
}

proof fn lemma_end_3()
    ensures
        one_line(" gossamircd-0.1 CDGNRSUWagilopqrswxyz BCIMNORSabcehiklmnopqstvz Iabehkloqv\r\n"@),
{
    reveal_strlit(" gossamircd-0.1 CDGNRSUWagilopqrswxyz BCIMNORSabcehiklmnopqstvz Iabehkloqv\r\n");
    reveal_strlit(" gossamircd-0.1 CDGNRSUWagilopqrswxyz BCIMNORSabcehiklmnopqstvz Iabehkloqv");
    assert(" gossamircd-0.1 CDGNRSUWagilopqrswxyz BCIMNORSabcehiklmnopqstvz Iabehkloqv\r\n"@.take(" gossamircd-0.1 CDGNRSUWagilopqrswxyz BCIMNORSabcehiklmnopqstvz Iabehkloqv\r\n"@.len() - 2) =~= " gossamircd-0.1 CDGNRSUWagilopqrswxyz BCIMNORSabcehiklmnopqstvz Iabehkloqv"@);
}

proof fn lemma_end_4()
    ensures
        one_line(" CALLERID CASEMAPPING=rfc1459 DEAF=D KICKLEN=180 MODES=4 PREFIX=(qaohv)~&@%+ STATUSMSG=~&@%+ EXCEPTS=e INVEX=I NICKLEN=30 NETWORK=Rizon MAXLIST=beI:250 MAXTARGETS=4 :are supported by this server\r\n"@),
{
    reveal_strlit(" CALLERID CASEMAPPING=rfc1459 DEAF=D KICKLEN=180 MODES=4 PREFIX=(qaohv)~&@%+ STATUSMSG=~&@%+ EXCEPTS=e INVEX=I NICKLEN=30 NETWORK=Rizon MAXLIST=beI:250 MAXTARGETS=4 :are supported by this server\r\n");
    reveal_strlit(" CALLERID CASEMAPPING=rfc1459 DEAF=D KICKLEN=180 MODES=4 PREFIX=(qaohv)~&@%+ STATUSMSG=~&@%+ EXCEPTS=e INVEX=I NICKLEN=30 NETWORK=Rizon MAXLIST=beI:250 MAXTARGETS=4 :are supported by this server");
    assert(" CALLERID CASEMAPPING=rfc1459 DEAF=D KICKLEN=180 MODES=4 PREFIX=(qaohv)~&@%+ STATUSMSG=~&@%+ EXCEPTS=e INVEX=I NICKLEN=30 NETWORK=Rizon MAXLIST=beI:250 MAXTARGETS=4 :are supported by this server\r\n"@.take(" CALLERID CASEMAPPING=rfc1459 DEAF=D KICKLEN=180 MODES=4 PREFIX=(qaohv)~&@%+ STATUSMSG=~&@%+ EXCEPTS=e INVEX=I NICKLEN=30 NETWORK=Rizon MAXLIST=beI:250 MAXTARGETS=4 :are supported by this server\r\n"@.len() - 2) =~= " CALLERID CASEMAPPING=rfc1459 DEAF=D KICKLEN=180 MODES=4 PREFIX=(qaohv)~&@%+ STATUSMSG=~&@%+ EXCEPTS=e INVEX=I NICKLEN=30 NETWORK=Rizon MAXLIST=beI:250 MAXTARGETS=4 :are supported by this server"@);
}

proof fn lemma_end_5()
    ensures
        one_line(" CHANTYPES=# CHANLIMIT=#:250 CHANNELLEN=50 TOPICLEN=390 CHANMODES=beI,k,l,BCMNORScimnpstz WATCH=60 NAMESX UHNAMES AWAYLEN=180 ELIST=CMNTU SAFELIST KNOCK :are supported by this server\r\n"@),
{
    reveal_strlit(" CHANTYPES=# CHANLIMIT=#:250 CHANNELLEN=50 TOPICLEN=390 CHANMODES=beI,k,l,BCMNORScimnpstz WATCH=60 NAMESX UHNAMES AWAYLEN=180 ELIST=CMNTU SAFELIST KNOCK :are supported by this server\r\n");
    reveal_strlit(" CHANTYPES=# CHANLIMIT=#:250 CHANNELLEN=50 TOPICLEN=390 CHANMODES=beI,k,l,BCMNORScimnpstz WATCH=60 NAMESX UHNAMES AWAYLEN=180 ELIST=CMNTU SAFELIST KNOCK :are supported by this server");
    assert(" CHANTYPES=# CHANLIMIT=#:250 CHANNELLEN=50 TOPICLEN=390 CHANMODES=beI,k,l,BCMNORScimnpstz WATCH=60 NAMESX UHNAMES AWAYLEN=180 ELIST=CMNTU SAFELIST KNOCK :are supported by this server\r\n"@.take(" CHANTYPES=# CHANLIMIT=#:250 CHANNELLEN=50 TOPICLEN=390 CHANMODES=beI,k,l,BCMNORScimnpstz WATCH=60 NAMESX UHNAMES AWAYLEN=180 ELIST=CMNTU SAFELIST KNOCK :are supported by this server\r\n"@.len() - 2) =~= " CHANTYPES=# CHANLIMIT=#:250 CHANNELLEN=50 TOPICLEN=390 CHANMODES=beI,k,l,BCMNORScimnpstz WATCH=60 NAMESX UHNAMES AWAYLEN=180 ELIST=CMNTU SAFELIST KNOCK :are supported by this server"@);
}

proof fn lemma_end_6()
    ensures
        one_line(" :+ix\r\n"@),
{
    reveal_strlit(" :+ix\r\n");
    reveal_strlit(" :+ix");
    assert(" :+ix\r\n"@.take(" :+ix\r\n"@.len() - 2) =~= " :+ix"@);
}

/// Each line of the welcome is one IRC line: it ends in `\r\n` and holds no other
/// carriage return or line feed, where the server name and the nick hold none. Each
/// starts with the server as prefix.
pub proof fn lemma_welcome_lines(server: Seq<char>, nick: Seq<char>)
    requires
        no_eol(server),
        no_eol(nick),
    ensures
        welcome_text(server, nick).len() == 7,
        forall|i: int|
            0 <= i < 7 ==> one_line(#[trigger] welcome_text(server, nick)[i])
                && welcome_text(server, nick)[i].take(server.len() + 1int) == ":"@ + server,
{
    lemma_text_0();
    lemma_text_1();
    lemma_text_2();
    lemma_text_3();
    lemma_text_4();
    lemma_text_5();
    lemma_text_6();
    lemma_text_7();
    lemma_text_8();
    lemma_text_9();
    lemma_end_0();
    lemma_end_1();
    lemma_end_2();
    lemma_end_3();
    lemma_end_4();
    lemma_end_5();
    lemma_end_6();
    let w = welcome_text(server, nick);
    let c = ":"@;
    lemma_no_eol_concat(c, server);
    let p = c + server;
    lemma_no_eol_concat(p, " 001 "@);
    lemma_no_eol_concat(p + " 001 "@, nick);
    lemma_no_eol_concat(p + " 001 "@ + nick, " :Welcome to the NAME Internet Relay Chat Network "@);
    lemma_no_eol_concat(p + " 001 "@ + nick + " :Welcome to the NAME Internet Relay Chat Network "@, nick);
    lemma_line_concat(p + " 001 "@ + nick + " :Welcome to the NAME Internet Relay Chat Network "@ + nick, "\r\n"@);
    lemma_no_eol_concat(p, " 002 "@);
    lemma_no_eol_concat(p + " 002 "@, nick);
    lemma_no_eol_concat(p + " 002 "@ + nick, " :Your host is "@);
    lemma_no_eol_concat(p + " 002 "@ + nick + " :Your host is "@, server);
    lemma_line_concat(p + " 002 "@ + nick + " :Your host is "@ + server, ", running version VERSION\r\n"@);
    lemma_no_eol_concat(p, " 003 "@);
    lemma_no_eol_concat(p + " 003 "@, nick);
    lemma_line_concat(p + " 003 "@ + nick, " :This server was created DATE\r\n"@);
    lemma_no_eol_concat(p, " 004 "@);
    lemma_no_eol_concat(p + " 004 "@, nick);
    lemma_no_eol_concat(p + " 004 "@ + nick, " "@);
    lemma_no_eol_concat(p + " 004 "@ + nick + " "@, server);
    lemma_line_concat(p + " 004 "@ + nick + " "@ + server, " gossamircd-0.1 CDGNRSUWagilopqrswxyz BCIMNORSabcehiklmnopqstvz Iabehkloqv\r\n"@);
    lemma_no_eol_concat(p, " 005 "@);
    lemma_no_eol_concat(p + " 005 "@, nick);
    lemma_line_concat(p + " 005 "@ + nick, " CALLERID CASEMAPPING=rfc1459 DEAF=D KICKLEN=180 MODES=4 PREFIX=(qaohv)~&@%+ STATUSMSG=~&@%+ EXCEPTS=e INVEX=I NICKLEN=30 NETWORK=Rizon MAXLIST=beI:250 MAXTARGETS=4 :are supported by this server\r\n"@);
    lemma_line_concat(p + " 005 "@ + nick, " CHANTYPES=# CHANLIMIT=#:250 CHANNELLEN=50 TOPICLEN=390 CHANMODES=beI,k,l,BCMNORScimnpstz WATCH=60 NAMESX UHNAMES AWAYLEN=180 ELIST=CMNTU SAFELIST KNOCK :are supported by this server\r\n"@);
    lemma_no_eol_concat(p, " MODE "@);
    lemma_no_eol_concat(p + " MODE "@, nick);
    lemma_line_concat(p + " MODE "@ + nick, " :+ix\r\n"@);
    reveal_strlit(":");
    assert(w[0].take(server.len() + 1int) =~= p);
    assert(w[1].take(server.len() + 1int) =~= p);
    assert(w[2].take(server.len() + 1int) =~= p);
    assert(w[3].take(server.len() + 1int) =~= p);
    assert(w[4].take(server.len() + 1int) =~= p);
    assert(w[5].take(server.len() + 1int) =~= p);
    assert(w[6].take(server.len() + 1int) =~= p);
    assert forall|i: int| 0 <= i < 7 implies #[trigger] w[i].take(server.len() + 1int) == p by {
        assert(i == 0 || i == 1 || i == 2 || i == 3 || i == 4 || i == 5 || i == 6);
    }
    assert forall|i: int| 0 <= i < 7 implies one_line(#[trigger] w[i]) by {
        assert(i == 0 || i == 1 || i == 2 || i == 3 || i == 4 || i == 5 || i == 6);
    }
}

/// `events` sends the lines `text`, in order.
pub open spec fn sends(events: Seq<ClientEvent>, text: Seq<Seq<char>>) -> bool {
    &&& events.len() == text.len()
    &&& forall|i: int|
        0 <= i < events.len() ==> (#[trigger] events[i] matches ClientEvent::Send(s) && s@
            == text[i])
}

/// The line that carries `message` from `sender` to `target`.
pub open spec fn privmsg_text(
    nick: Seq<char>,
    ident: Seq<char>,
    host: Seq<char>,
    target: Seq<char>,
    message: Seq<char>,
) -> Seq<char> {
    ":"@ + nick + "!"@ + ident + "@"@ + host + " PRIVMSG "@ + target + " :"@ + message + "\r\n"@
}

/// Appends `line` to the events as a line to send.
fn push_line(events: &mut Vec<ClientEvent>, line: String)
    ensures
        final(events)@ == old(events)@.push(ClientEvent::Send(line)),
{
    events.push(ClientEvent::Send(line));
}

/// The lines that welcome client `id` to the network, as events for its connection.
pub fn send_welcome(network: &Network, id: ClientId) -> (res: Vec<ClientEvent>)
    requires
        network.wf(),
        network.state.clients().contains_key(id),
    ensures
        sends(
            res@,
            welcome_text(network.state.servers()[0].name@, network.state.clients()[id].nick@),
        ),
{
    let client = network.state.client_by_id(id);
    let nick = client.nick.as_str();
    let server = network.state.server_by_id(0).name.as_str();
    let mut events: Vec<ClientEvent> = Vec::new();

    let mut l = String::from_str(":");
    l.append(server);
    l.append(" 001 ");
    l.append(nick);
    l.append(" :Welcome to the NAME Internet Relay Chat Network ");
    l.append(nick);
    l.append("\r\n");
    push_line(&mut events, l);

    let mut l = String::from_str(":");
    l.append(server);
    l.append(" 002 ");
    l.append(nick);
    l.append(" :Your host is ");
    l.append(server);
    l.append(", running version VERSION\r\n");
    push_line(&mut events, l);

    let mut l = String::from_str(":");
    l.append(server);
    l.append(" 003 ");
    l.append(nick);
    l.append(" :This server was created DATE\r\n");
    push_line(&mut events, l);

    let mut l = String::from_str(":");
    l.append(server);
    l.append(" 004 ");
    l.append(nick);
    l.append(" ");
    l.append(server);
    l.append(
        " gossamircd-0.1 CDGNRSUWagilopqrswxyz BCIMNORSabcehiklmnopqstvz Iabehkloqv\r\n",
    );
    push_line(&mut events, l);

    let mut l = String::from_str(":");
    l.append(server);
    l.append(" 005 ");
    l.append(nick);
    l.append(
        " CALLERID CASEMAPPING=rfc1459 DEAF=D KICKLEN=180 MODES=4 PREFIX=(qaohv)~&@%+ STATUSMSG=~&@%+ EXCEPTS=e INVEX=I NICKLEN=30 NETWORK=Rizon MAXLIST=beI:250 MAXTARGETS=4 :are supported by this server\r\n",
    );
    push_line(&mut events, l);

    let mut l = String::from_str(":");
    l.append(server);
    l.append(" 005 ");
    l.append(nick);
    l.append(
        " CHANTYPES=# CHANLIMIT=#:250 CHANNELLEN=50 TOPICLEN=390 CHANMODES=beI,k,l,BCMNORScimnpstz WATCH=60 NAMESX UHNAMES AWAYLEN=180 ELIST=CMNTU SAFELIST KNOCK :are supported by this server\r\n",
    );
    push_line(&mut events, l);

    let mut l = String::from_str(":");
    l.append(server);
    l.append(" MODE ");
    l.append(nick);
    l.append(" :+ix\r\n");
    push_line(&mut events, l);

    proof {
        let text = welcome_text(
            network.state.servers()[0].name@,
            network.state.clients()[id].nick@,
        );
        assert forall|i: int| 0 <= i < events@.len() implies (#[trigger] events@[i] matches ClientEvent::Send(
            s,
        ) && s@ == text[i]) by {}
    }
    events
}

/// A client asks to register with the local server under `nick`: it is added to the
/// network's first subnet, and its connection is told whether that worked, and welcomed
/// if it did.
pub fn on_registration(network: &mut Network, nick: String, ident: String, gecos: String) -> (res:
    Vec<ClientEvent>)
    requires
        old(network).wf(),
        old(network).state.subnets().contains_key(0),
        old(network).state.next_client_id() < u32::MAX,
    ensures
        final(network).wf(),
        final(network).links() == old(network).links(),
        exists|r: Result<ClientId, Error>|
            #![trigger client_add_result(
                &old(network).state,
                &final(network).state,
                nick@,
                ident@,
                "127.0.0.1"@,
                gecos@,
                0,
                0,
                r,
            )]
            client_add_result(
                &old(network).state,
                &final(network).state,
                nick@,
                ident@,
                "127.0.0.1"@,
                gecos@,
                0,
                0,
                r,
            ) && match r {
                Ok(id) => {
                    &&& final(network).outbox() == old(network).outbox() + broadcast_of(
                        old(network).links(),
                        Message::Client(client_message(&final(network).state, id)),
                        None,
                    )
                    &&& res@.len() == 8
                    &&& res@[0] == ClientEvent::RegistrationSuccess(id)
                    &&& sends(
                        res@.skip(1),
                        welcome_text(final(network).state.servers()[0].name@, nick@),
                    )
                },
                Err(_) => {
                    &&& final(network).outbox() == old(network).outbox()
                    &&& res@ == seq![ClientEvent::RegistrationNickTaken]
                },
            },
{
    let host = String::from_str("127.0.0.1");
    let res = network.client_add(0, nick, ident, host, gecos);
    match res {
        Ok(id) => {
            let mut events: Vec<ClientEvent> = Vec::new();
            events.push(ClientEvent::RegistrationSuccess(id));
            let mut welcome = send_welcome(network, id);
            let ghost w = welcome@;
            events.append(&mut welcome);
            proof {
                assert(events@.skip(1) =~= w);
            }
            events
        },
        Err(_) => {
            let mut events: Vec<ClientEvent> = Vec::new();
            events.push(ClientEvent::RegistrationNickTaken);
            events
        },
    }
}

/// The nick a private message is addressed to, as text.
pub open spec fn privmsg_target_nick(msg: IrcPrivateMessage) -> Seq<char> {
    decode_utf8(msg.raw().arg_bytes(1))
}

/// The client a private message is addressed to: the client of the first subnet whose
/// lower-case nick is the target as written, or `None`.
pub fn privmsg_target(network: &Network, msg: &IrcPrivateMessage) -> (res: Option<ClientId>)
    requires
        network.wf(),
        network.state.subnets().contains_key(0),
    ensures
        ({
            let by_nick = network.state.subnets()[0].clients_by_lnick@;
            let target = privmsg_target_nick(*msg);
            &&& res is Some <==> by_nick.contains_key(target)
            &&& res matches Some(t) ==> t == by_nick[target] && network.state.clients().contains_key(t)
        }),
{
    let target = msg.target();
    proof {
        encode_utf8_decode_utf8(target@);
        assert(network.state.subnet_ok(0));
    }
    network.state.client_by_nick(0, target)
}

/// The line that carries private message `msg` from client `id` to client `target`.
pub fn privmsg_line(network: &Network, id: ClientId, target: ClientId, msg: &IrcPrivateMessage) -> (res:
    String)
    requires
        network.state.clients().contains_key(id),
        network.state.clients().contains_key(target),
    ensures
        ({
            let st = &network.state;
            res@ == privmsg_text(
                st.clients()[id].nick@,
                st.clients()[id].ident@,
                st.clients()[id].host@,
                st.clients()[target].nick@,
                decode_utf8(msg.raw().arg_bytes(2)),
            )
        }),
{
    let sender = network.state.client_by_id(id);
    let to = network.state.client_by_id(target);
    let text = msg.message();
    proof {
        encode_utf8_decode_utf8(text@);
    }
    let mut line = String::from_str(":");
    line.append(sender.nick.as_str());
    line.append("!");
    line.append(sender.ident.as_str());
    line.append("@");
    line.append(sender.host.as_str());
    line.append(" PRIVMSG ");
    line.append(to.nick.as_str());
    line.append(" :");
    line.append(text);
    line.append("\r\n");
    line
}

} // verus!
