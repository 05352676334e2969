use crate::buffer::take_outcome;
use crate::codec::{dropped, handed, lemma_drop_more, suffix_of, took, LineCodec};
use crate::framing::{
    emit, frame, fresh, is_line_end, lemma_frame_concat, lemma_frame_resume, no_line_end, silent,
    Framer, LINE_MAX,
};
use crate::irc::{
    command_bytes, eq_ignore_case, expected_len, from_result, is_supported, nick_command,
    user_command, IrcMessage,
};
use crate::raw::{parse_args, RawMessage};
use crate::state::ClientId;
use vstd::prelude::*;
use vstd::string::StringSliceAdditionalSpecFns;
use vstd::utf8::{decode_utf8, encode_utf8, encode_utf8_decode_utf8, valid_utf8};

verus! {

/// `take_mut::take` moves the value out of `mut_ref`, hands it to `closure` and stores
/// back what the closure returns. Were the closure to panic, the process would abort.
pub assume_specification<T, F>[ take_mut::take::<T, F> ](mut_ref: &mut T, closure: F)
    where
        F: FnOnce(T) -> T,
    requires
        closure.requires((*old(mut_ref),)),
    ensures
        closure.ensures((*old(mut_ref),), *final(mut_ref)),
;

/// What the server tells a connection.
pub enum ClientEvent {
    RegistrationSuccess(ClientId),
    RegistrationNickTaken,
    Send(String),
}

/// What a client has told about itself before registering.
pub struct PendingClientState {
    pub nick: Option<String>,
    pub ident: Option<String>,
    pub gecos: Option<String>,
}

impl Default for PendingClientState {
    fn default() -> (res: PendingClientState)
        ensures
            res.nick is None,
            res.ident is None,
            res.gecos is None,
    {
        PendingClientState { nick: None, ident: None, gecos: None }
    }
}

/// Where a connection stands: collecting its registration, waiting for the server to
/// accept it, or registered as a client.
pub enum ClientState {
    Pending(PendingClientState),
    RegistrationInProgress(PendingClientState),
    Active(ClientId),
}

/// The registration details, as text.
pub struct RegView {
    pub nick: Option<Seq<char>>,
    pub ident: Option<Seq<char>>,
    pub gecos: Option<Seq<char>>,
}

/// A connection's state, as text.
pub enum PhaseView {
    Pending(RegView),
    Registering(RegView),
    Active(ClientId),
}

/// What a connection asks of the server: to register a client under a nick, ident and
/// real name, or to act on a message of a registered client, given as its bytes.
pub enum ActionView {
    Register(Seq<char>, Seq<char>, Seq<char>),
    Message(ClientId, Seq<u8>),
}

pub open spec fn opt_view(o: Option<String>) -> Option<Seq<char>> {
    match o {
        Some(s) => Some(s@),
        None => None,
    }
}

impl PendingClientState {
    pub open spec fn view(&self) -> RegView {
        RegView { nick: opt_view(self.nick), ident: opt_view(self.ident), gecos: opt_view(self.gecos) }
    }
}

impl ClientState {
    pub open spec fn phase(&self) -> PhaseView {
        match self {
            ClientState::Pending(r) => PhaseView::Pending(r.view()),
            ClientState::RegistrationInProgress(r) => PhaseView::Registering(r.view()),
            ClientState::Active(id) => PhaseView::Active(*id),
        }
    }

    /// A connection reads from its client unless it waits for the server to accept its
    /// registration.
    pub fn should_read(&self) -> (res: bool)
        ensures
            res == !(self.phase() is Registering),
    {
        match self {
            ClientState::RegistrationInProgress(_) => false,
            _ => true,
        }
    }
}

/// What a connection asks of the server.
pub enum ClientAction {
    AttemptRegistration { nick: String, ident: String, gecos: String },
    Message(ClientId, IrcMessage),
}

/// The bytes of the line a message was parsed from.
pub open spec fn message_bytes(msg: IrcMessage) -> Seq<u8> {
    match msg {
        IrcMessage::NickRequest(m) => m.raw().bytes(),
        IrcMessage::User(m) => m.raw().bytes(),
        IrcMessage::Privmsg(m) => m.raw().bytes(),
    }
}

pub open spec fn action_view(a: ClientAction) -> ActionView {
    match a {
        ClientAction::AttemptRegistration { nick, ident, gecos } => ActionView::Register(
            nick@,
            ident@,
            gecos@,
        ),
        ClientAction::Message(id, msg) => ActionView::Message(id, message_bytes(msg)),
    }
}

pub open spec fn opt_action_view(a: Option<ClientAction>) -> Option<ActionView> {
    match a {
        Some(a) => Some(action_view(a)),
        None => None,
    }
}

/// Registration details with nick, ident and real name all given.
pub open spec fn complete(r: RegView) -> bool {
    r.nick is Some && r.ident is Some && r.gecos is Some
}

/// Once all details are in, the connection asks to register and waits.
pub open spec fn after_reg(r: RegView) -> (PhaseView, Option<ActionView>) {
    if complete(r) {
        (
            PhaseView::Registering(r),
            Some(ActionView::Register(r.nick->0, r.ident->0, r.gecos->0)),
        )
    } else {
        (PhaseView::Pending(r), None)
    }
}

/// A registration with a new nick.
pub open spec fn with_nick(r: RegView, nick: Seq<u8>) -> RegView {
    RegView { nick: Some(decode_utf8(nick)), ident: r.ident, gecos: r.gecos }
}

/// A registration with a new ident and real name.
pub open spec fn with_user(r: RegView, ident: Seq<u8>, gecos: Seq<u8>) -> RegView {
    RegView { nick: r.nick, ident: Some(decode_utf8(ident)), gecos: Some(decode_utf8(gecos)) }
}

/// One message from the client: before registering, NICK and USER fill in the
/// details; once registered, every message goes to the server.
pub open spec fn msg_step(p: PhaseView, msg: IrcMessage) -> (PhaseView, Option<ActionView>) {
    match p {
        PhaseView::Pending(r) => match msg {
            IrcMessage::NickRequest(m) => after_reg(with_nick(r, m.raw().arg_bytes(1))),
            IrcMessage::User(m) => after_reg(
                with_user(r, m.raw().arg_bytes(1), m.raw().arg_bytes(4)),
            ),
            IrcMessage::Privmsg(_) => (p, None),
        },
        PhaseView::Active(id) => (p, Some(ActionView::Message(id, message_bytes(msg)))),
        PhaseView::Registering(_) => (p, None),
    }
}

/// A copy of an optional string.
fn clone_opt(o: &Option<String>) -> (res: Option<String>)
    ensures
        res == *o,
{
    match o {
        Some(s) => Some(s.clone()),
        None => None,
    }
}

/// The state once a pending registration waits for the server.
pub open spec fn registering(s: ClientState) -> PhaseView {
    match s {
        ClientState::Pending(r) => PhaseView::Registering(r.view()),
        _ => s.phase(),
    }
}

/// The state once a waiting registration is pending again.
pub open spec fn reopened(s: ClientState) -> PhaseView {
    match s {
        ClientState::RegistrationInProgress(r) => PhaseView::Pending(r.view()),
        _ => s.phase(),
    }
}

/// A waiting registration; only a pending one is ever handed in.
fn begin_registration(state: ClientState) -> (res: ClientState)
    requires
        state is Pending,
    ensures
        res.phase() == registering(state),
{
    match state {
        ClientState::Pending(reg) => ClientState::RegistrationInProgress(reg),
        other => other,
    }
}

/// A pending registration again; only a waiting one is ever handed in.
fn reopen_registration(state: ClientState) -> (res: ClientState)
    requires
        state is RegistrationInProgress,
    ensures
        res.phase() == reopened(state),
{
    match state {
        ClientState::RegistrationInProgress(reg) => ClientState::Pending(reg),
        other => other,
    }
}

/// Handles one message of the client and says what to ask of the server, if anything.
fn step_message(state: &mut ClientState, msg: IrcMessage) -> (res: Option<ClientAction>)
    requires
        !(old(state).phase() is Registering),
        old(state).phase() is Pending ==> !(msg is Privmsg),
    ensures
        (final(state).phase(), opt_action_view(res)) == msg_step(old(state).phase(), msg),
{
    match state {
        ClientState::Pending(reg) => {
            match &msg {
                IrcMessage::NickRequest(m) => {
                    let nick = m.nick();
                    proof {
                        encode_utf8_decode_utf8(nick@);
                    }
                    reg.nick = Some(String::from_str(nick));
                },
                IrcMessage::User(m) => {
                    let ident = m.ident();
                    let gecos = m.gecos();
                    proof {
                        encode_utf8_decode_utf8(ident@);
                        encode_utf8_decode_utf8(gecos@);
                    }
                    reg.ident = Some(String::from_str(ident));
                    reg.gecos = Some(String::from_str(gecos));
                },
                IrcMessage::Privmsg(_) => {},
            }
            if reg.nick.is_some() && reg.ident.is_some() && reg.gecos.is_some() {
                let nick = clone_opt(&reg.nick).unwrap();
                let ident = clone_opt(&reg.ident).unwrap();
                let gecos = clone_opt(&reg.gecos).unwrap();
                take_mut::take(state, begin_registration);
                Some(ClientAction::AttemptRegistration { nick, ident, gecos })
            } else {
                None
            }
        },
        ClientState::Active(id) => Some(ClientAction::Message(*id, msg)),
        ClientState::RegistrationInProgress(_) => None,
    }
}

/// Why a connection gives up on what its client sent.
pub enum ClientError {
    /// A line's command is not one the server knows.
    UnsupportedCommand,
    /// A line has the wrong number of arguments for its command.
    WrongArgCount,
    /// A message other than NICK and USER came before registering.
    UnexpectedMessage,
    /// No buffer was free for the next line.
    RecvQExhausted,
    /// Received bytes were left over with no room for them.
    RecvQOverflow,
}

/// Argument `i` of a line, as bytes.
pub open spec fn line_arg(line: Seq<u8>, i: int) -> Seq<u8> {
    line.subrange(parse_args(line)[i].0 as int, parse_args(line)[i].0 + parse_args(line)[i].1)
}

/// What stops a connection at a line: a command it does not know, the wrong number of
/// arguments, or a message other than NICK and USER before registering.
pub open spec fn line_error(p: PhaseView, line: Seq<u8>) -> Option<ClientError> {
    let cmd = command_bytes(line);
    if !is_supported(line) {
        Some(ClientError::UnsupportedCommand)
    } else if parse_args(line).len() != expected_len(cmd) {
        Some(ClientError::WrongArgCount)
    } else if p is Pending && !eq_ignore_case(cmd, nick_command()) && !eq_ignore_case(
        cmd,
        user_command(),
    ) {
        Some(ClientError::UnexpectedMessage)
    } else {
        None
    }
}

/// One line from the client, as `msg_step` handles the message parsed from it.
pub open spec fn line_step(p: PhaseView, line: Seq<u8>) -> (PhaseView, Option<ActionView>) {
    let cmd = command_bytes(line);
    match p {
        PhaseView::Pending(r) => if eq_ignore_case(cmd, nick_command()) {
            after_reg(with_nick(r, line_arg(line, 1)))
        } else if eq_ignore_case(cmd, user_command()) {
            after_reg(with_user(r, line_arg(line, 1), line_arg(line, 4)))
        } else {
            (p, None)
        },
        PhaseView::Active(id) => (p, Some(ActionView::Message(id, line))),
        PhaseView::Registering(_) => (p, None),
    }
}

pub open spec fn opt_seq(a: Option<ActionView>) -> Seq<ActionView> {
    match a {
        Some(x) => seq![x],
        None => Seq::empty(),
    }
}

/// Lines from the client, handled in order until the connection waits for the server
/// or a line stops it: the state reached, what was asked of the server, how many lines
/// were handled, and what stopped the connection, if anything.
pub open spec fn run_lines(p: PhaseView, lines: Seq<Seq<u8>>) -> (
    PhaseView,
    Seq<ActionView>,
    nat,
    Option<ClientError>,
)
    decreases lines.len(),
{
    if lines.len() == 0 || p is Registering {
        (p, Seq::empty(), 0, None)
    } else if line_error(p, lines[0]) is Some {
        (p, Seq::empty(), 0, line_error(p, lines[0]))
    } else {
        let (p1, a) = line_step(p, lines[0]);
        let r = run_lines(p1, lines.drop_first());
        (r.0, opt_seq(a) + r.1, r.2 + 1, r.3)
    }
}

/// Handling lines in two runs, the first handling all of its lines, is handling them
/// in one.
pub proof fn lemma_run_concat(p: PhaseView, s: Seq<Seq<u8>>, t: Seq<Seq<u8>>)
    requires
        run_lines(p, s).2 == s.len(),
        run_lines(p, s).3 is None,
    ensures
        run_lines(p, s + t) == ({
            let a = run_lines(p, s);
            let b = run_lines(a.0, t);
            (b.0, a.1 + b.1, a.2 + b.2, b.3)
        }),
    decreases s.len(),
{
    if s.len() == 0 {
        assert(s + t =~= t);
        assert(Seq::<ActionView>::empty() + run_lines(p, t).1 =~= run_lines(p, t).1);
    } else {
        let (p1, a) = line_step(p, s[0]);
        lemma_run_concat(p1, s.drop_first(), t);
        assert((s + t).drop_first() =~= s.drop_first() + t);
        assert((s + t)[0] == s[0]);
        let r = run_lines(p1, s.drop_first());
        let b = run_lines(r.0, t);
        assert(opt_seq(a) + (r.1 + b.1) =~= (opt_seq(a) + r.1) + b.1);
    }
}

/// A run handles lines in order and stops only when the connection waits for the
/// server, at the first line that stops it, or when the lines run out.
pub proof fn lemma_run_stops(p: PhaseView, lines: Seq<Seq<u8>>)
    ensures
        ({
            let r = run_lines(p, lines);
            &&& r.2 <= lines.len()
            &&& r.3 is Some ==> r.2 < lines.len() && line_error(r.0, lines[r.2 as int]) == r.3
                && !(r.0 is Registering)
            &&& r.3 is None && r.2 < lines.len() ==> r.0 is Registering
        }),
    decreases lines.len(),
{
    if lines.len() > 0 && !(p is Registering) && line_error(p, lines[0]) is None {
        let (p1, a) = line_step(p, lines[0]);
        lemma_run_stops(p1, lines.drop_first());
        let r = run_lines(p1, lines.drop_first());
        if r.3 is Some {
            assert(lines[r.2 + 1int] == lines.drop_first()[r.2 as int]);
        }
    }
}

/// A run asks to register at most once, as its last request, and the connection then
/// waits for the server.
pub proof fn lemma_register_last(p: PhaseView, lines: Seq<Seq<u8>>)
    ensures
        ({
            let r = run_lines(p, lines);
            forall|i: int|
                0 <= i < r.1.len() && #[trigger] r.1[i] is Register ==> i == r.1.len() - 1
                    && r.0 is Registering
        }),
    decreases lines.len(),
{
    if lines.len() > 0 && !(p is Registering) && line_error(p, lines[0]) is None {
        let (p1, a) = line_step(p, lines[0]);
        lemma_register_last(p1, lines.drop_first());
        let r = run_lines(p1, lines.drop_first());
        if a matches Some(ActionView::Register(_, _, _)) {
            assert(p1 is Registering);
            assert(r.1 =~= Seq::<ActionView>::empty());
        } else {
            assert forall|i: int| 0 <= i < (opt_seq(a) + r.1).len() && #[trigger] (opt_seq(a) + r.1)[i] is Register implies i == (opt_seq(a) + r.1).len() - 1 && r.0 is Registering by {
                if i >= opt_seq(a).len() {
                    assert((opt_seq(a) + r.1)[i] == r.1[i - opt_seq(a).len()]);
                }
            }
        }
    }
}

/// A new connection that is sent NICK and then USER asks to register under the nick of
/// the first and the ident and real name of the second, and waits.
pub proof fn lemma_nick_then_user(nick_line: Seq<u8>, user_line: Seq<u8>)
    requires
        line_error(PhaseView::Pending(RegView { nick: None, ident: None, gecos: None }), nick_line)
            is None,
        eq_ignore_case(command_bytes(nick_line), nick_command()),
        line_error(
            PhaseView::Pending(
                RegView { nick: Some(decode_utf8(line_arg(nick_line, 1))), ident: None, gecos: None },
            ),
            user_line,
        ) is None,
        !eq_ignore_case(command_bytes(user_line), nick_command()),
        eq_ignore_case(command_bytes(user_line), user_command()),
    ensures
        ({
            let r = RegView {
                nick: Some(decode_utf8(line_arg(nick_line, 1))),
                ident: Some(decode_utf8(line_arg(user_line, 1))),
                gecos: Some(decode_utf8(line_arg(user_line, 4))),
            };
            run_lines(
                PhaseView::Pending(RegView { nick: None, ident: None, gecos: None }),
                seq![nick_line, user_line],
            ) == (
                PhaseView::Registering(r),
                seq![ActionView::Register(r.nick->0, r.ident->0, r.gecos->0)],
                2nat,
                None::<ClientError>,
            )
        }),
{
    let lines = seq![nick_line, user_line];
    assert(lines.drop_first() =~= seq![user_line]);
    assert(lines.drop_first().drop_first() =~= Seq::<Seq<u8>>::empty());
    let p0 = PhaseView::Pending(RegView { nick: None, ident: None, gecos: None });
    let (p1, a1) = line_step(p0, nick_line);
    let (p2, a2) = line_step(p1, user_line);
    assert(opt_seq(a1) =~= Seq::<ActionView>::empty());
    let e = Seq::<ActionView>::empty();
    assert(run_lines(p2, Seq::<Seq<u8>>::empty()) == (p2, e, 0nat, None::<ClientError>));
    let r2 = run_lines(p1, seq![user_line]);
    assert(r2 == (p2, opt_seq(a2) + e, 1nat, None::<ClientError>));
    assert(opt_seq(a2) + e =~= opt_seq(a2));
    assert(run_lines(p0, lines) == (p2, opt_seq(a1) + r2.1, 2nat, None::<ClientError>));
    assert(opt_seq(a1) + opt_seq(a2) =~= opt_seq(a2));
}

/// The message parsed from a line is handled as the line is.
proof fn lemma_step_agrees(p: PhaseView, msg: IrcMessage, line: Seq<u8>)
    requires
        from_result(Ok(msg), line),
    ensures
        msg_step(p, msg) == line_step(p, line),
{
}

/// How many bytes wait to be sent to a client at most.
pub const SENDQ_MAX: usize = 4096;

/// The notices a client gets as soon as it connects.
pub open spec fn notice_text(server_name: Seq<char>) -> Seq<char> {
    ":"@ + server_name + " NOTICE * :*** Looking up your hostname...\r\n"@ + ":"@ + server_name
        + " NOTICE * :*** Found your hostname\r\n"@
}

/// The reply to a registration whose nick is taken.
pub open spec fn nick_taken_text(server_name: Seq<char>, nick: Seq<char>) -> Seq<char> {
    ":"@ + server_name + " 433 "@ + nick + " :Nickname is already in use\r\n"@
}

/// One client connection: its state, the server's name, and the bytes waiting to be
/// sent to it.
pub struct ClientConnection {
    state: ClientState,
    server_name: String,
    sendq_buffer: Vec<u8>,
    sendq_pos: usize,
}

/// `b` is `a` after `msg` was written at the front of the send buffer and counted as
/// pending: what was pending before is overwritten where `msg` lies.
pub open spec fn written(a: &ClientConnection, b: &ClientConnection, msg: Seq<u8>) -> bool {
    &&& b.sendq_buffer() == msg + a.sendq_buffer().skip(msg.len() as int)
    &&& b.sendq_len() == a.sendq_len() + msg.len()
}

impl ClientConnection {
    pub closed spec fn phase(&self) -> PhaseView {
        self.state.phase()
    }

    pub closed spec fn server_name(&self) -> Seq<char> {
        self.server_name@
    }

    /// The whole send buffer.
    pub closed spec fn sendq_buffer(&self) -> Seq<u8> {
        self.sendq_buffer@
    }

    /// How many bytes at the front of the send buffer wait to be sent.
    pub closed spec fn sendq_len(&self) -> nat {
        self.sendq_pos as nat
    }

    /// The bytes waiting to be sent.
    pub open spec fn sendq(&self) -> Seq<u8> {
        self.sendq_buffer().take(self.sendq_len() as int)
    }

    pub open spec fn wf(&self) -> bool {
        &&& self.sendq_buffer().len() == SENDQ_MAX
        &&& self.sendq_len() <= SENDQ_MAX
    }

    /// Whether `process_event` takes `ev`: a nick refusal only while a registration
    /// waits, and anything it writes must fit in the send buffer.
    pub open spec fn event_ok(&self, ev: ClientEvent) -> bool {
        match ev {
            ClientEvent::RegistrationSuccess(_) => true,
            ClientEvent::RegistrationNickTaken => match self.phase() {
                PhaseView::Registering(r) => r.nick is Some && self.sendq_len() + encode_utf8(
                    nick_taken_text(self.server_name(), r.nick->0),
                ).len() <= SENDQ_MAX,
                _ => false,
            },
            ClientEvent::Send(m) => self.sendq_len() + encode_utf8(m@).len() <= SENDQ_MAX,
        }
    }

    /// A new connection, with the lookup notices queued.
    pub fn new(server_name: String) -> (res: ClientConnection)
        ensures
            res.wf(),
            res.phase() == PhaseView::Pending(RegView { nick: None, ident: None, gecos: None }),
            res.server_name() == server_name@,
            res.sendq_len() == if encode_utf8(notice_text(server_name@)).len() < SENDQ_MAX {
                encode_utf8(notice_text(server_name@)).len()
            } else {
                SENDQ_MAX as nat
            },
            res.sendq() == encode_utf8(notice_text(server_name@)).take(res.sendq_len() as int),
    {
        let mut notice = String::from_str(":");
        notice.append(server_name.as_str());
        notice.append(" NOTICE * :*** Looking up your hostname...\r\n");
        notice.append(":");
        notice.append(server_name.as_str());
        notice.append(" NOTICE * :*** Found your hostname\r\n");
        let bytes = notice.as_str().as_bytes();
        let n = if bytes.len() < SENDQ_MAX {
            bytes.len()
        } else {
            SENDQ_MAX
        };
        let mut conn = ClientConnection {
            state: ClientState::Pending(PendingClientState::default()),
            server_name,
            sendq_buffer: vec![0u8; SENDQ_MAX],
            sendq_pos: 0,
        };
        conn.write_front(bytes, n);
        assert(conn.sendq() =~= bytes@.take(n as int));
        conn
    }

    /// Copies the first `n` bytes of `msg` to the front of the send buffer and counts
    /// them as pending.
    fn write_front(&mut self, msg: &[u8], n: usize)
        requires
            old(self).wf(),
            n <= msg@.len(),
            old(self).sendq_len() + n <= SENDQ_MAX,
        ensures
            final(self).wf(),
            written(old(self), final(self), msg@.take(n as int)),
            final(self).state == old(self).state,
            final(self).server_name == old(self).server_name,
    {
        let mut i: usize = 0;
        while i < n
            invariant
                i <= n,
                n <= msg@.len(),
                self.sendq_buffer@.len() == SENDQ_MAX,
                old(self).sendq_buffer@.len() == SENDQ_MAX,
                self.sendq_pos == old(self).sendq_pos,
                old(self).sendq_pos + n <= SENDQ_MAX,
                self.state == old(self).state,
                self.server_name == old(self).server_name,
                self.sendq_buffer@ == msg@.take(i as int) + old(self).sendq_buffer@.skip(i as int),
            decreases n - i,
        {
            self.sendq_buffer.set(i, msg[i]);
            i = i + 1;
            proof {
                assert(self.sendq_buffer@ =~= msg@.take(i as int) + old(self).sendq_buffer@.skip(
                    i as int,
                ));
            }
        }
        self.sendq_pos = self.sendq_pos + n;
    }

    /// Queues `msg` for the client. The bytes are written at the front of the send
    /// buffer, so bytes still pending are overwritten; `msg` must fit in the room left.
    pub fn write_sendq(&mut self, msg: &[u8])
        requires
            old(self).wf(),
            old(self).sendq_len() + msg@.len() <= SENDQ_MAX,
        ensures
            final(self).wf(),
            written(old(self), final(self), msg@),
            final(self).phase() == old(self).phase(),
            final(self).server_name() == old(self).server_name(),
    {
        self.write_front(msg, msg.len());
        assert(msg@.take(msg@.len() as int) =~= msg@);
    }

    /// How many more bytes the send buffer takes.
    pub fn sendq_room(&self) -> (res: usize)
        requires
            self.wf(),
        ensures
            res == SENDQ_MAX - self.sendq_len(),
    {
        SENDQ_MAX - self.sendq_pos
    }

    /// The bytes waiting to be sent.
    pub fn sendq_bytes(&self) -> (res: &[u8])
        requires
            self.wf(),
        ensures
            res@ == self.sendq(),
    {
        let res = vstd::slice::slice_subrange(self.sendq_buffer.as_slice(), 0, self.sendq_pos);
        assert(res@ =~= self.sendq());
        res
    }

    /// The first `n` pending bytes were sent: the rest moves to the front.
    pub fn sendq_written(&mut self, n: usize)
        requires
            old(self).wf(),
            n <= old(self).sendq_len(),
        ensures
            final(self).wf(),
            final(self).sendq_len() == old(self).sendq_len() - n,
            final(self).sendq_buffer() == old(self).sendq_buffer().subrange(
                n as int,
                old(self).sendq_len() as int,
            ) + old(self).sendq_buffer().skip(old(self).sendq_len() - n),
            final(self).sendq() == old(self).sendq().skip(n as int),
            final(self).phase() == old(self).phase(),
            final(self).server_name() == old(self).server_name(),
    {
        let pos = self.sendq_pos;
        let ghost b0 = self.sendq_buffer@;
        let mut i: usize = n;
        while i < pos
            invariant
                n <= i <= pos,
                pos == old(self).sendq_pos,
                pos <= SENDQ_MAX,
                self.sendq_buffer@.len() == SENDQ_MAX,
                b0 == old(self).sendq_buffer@,
                b0.len() == SENDQ_MAX,
                self.sendq_pos == pos,
                self.state == old(self).state,
                self.server_name == old(self).server_name,
                self.sendq_buffer@ == b0.subrange(n as int, i as int) + b0.skip(i - n),
            decreases pos - i,
        {
            let b = self.sendq_buffer[i];
            self.sendq_buffer.set(i - n, b);
            i = i + 1;
            proof {
                assert(self.sendq_buffer@ =~= b0.subrange(n as int, i as int) + b0.skip(i - n));
            }
        }
        self.sendq_pos = pos - n;
        proof {
            assert(self.sendq() =~= old(self).sendq().skip(n as int));
        }
    }

    /// Whether `process_event` takes `ev`.
    pub fn event_fits(&self, ev: &ClientEvent) -> (res: bool)
        requires
            self.wf(),
        ensures
            res == self.event_ok(*ev),
    {
        match ev {
            ClientEvent::RegistrationSuccess(_) => true,
            ClientEvent::RegistrationNickTaken => match &self.state {
                ClientState::RegistrationInProgress(reg) => match &reg.nick {
                    Some(nick) => {
                        let line = self.nick_taken_line(nick);
                        line.as_str().as_bytes().len() <= SENDQ_MAX - self.sendq_pos
                    },
                    None => false,
                },
                _ => false,
            },
            ClientEvent::Send(m) => m.as_str().as_bytes().len() <= SENDQ_MAX - self.sendq_pos,
        }
    }

    /// The reply to a registration whose nick `nick` is taken.
    fn nick_taken_line(&self, nick: &String) -> (res: String)
        ensures
            res@ == nick_taken_text(self.server_name(), nick@),
    {
        let mut line = String::from_str(":");
        line.append(self.server_name.as_str());
        line.append(" 433 ");
        line.append(nick.as_str());
        line.append(" :Nickname is already in use\r\n");
        line
    }

    /// Handles what the server tells the connection: the client is registered, its
    /// nick is taken (the registration goes back to pending, and the client is told),
    /// or a line to pass on.
    pub fn process_event(&mut self, ev: ClientEvent)
        requires
            old(self).wf(),
            old(self).event_ok(ev),
        ensures
            final(self).wf(),
            final(self).server_name() == old(self).server_name(),
            match ev {
                ClientEvent::RegistrationSuccess(id) => {
                    &&& final(self).phase() == PhaseView::Active(id)
                    &&& final(self).sendq_buffer() == old(self).sendq_buffer()
                    &&& final(self).sendq_len() == old(self).sendq_len()
                },
                ClientEvent::RegistrationNickTaken => match old(self).phase() {
                    PhaseView::Registering(r) => {
                        &&& final(self).phase() == PhaseView::Pending(r)
                        &&& written(
                            old(self),
                            final(self),
                            encode_utf8(nick_taken_text(old(self).server_name(), r.nick->0)),
                        )
                    },
                    _ => false,
                },
                ClientEvent::Send(m) => {
                    &&& final(self).phase() == old(self).phase()
                    &&& written(old(self), final(self), encode_utf8(m@))
                },
            },
    {
        match ev {
            ClientEvent::RegistrationSuccess(id) => {
                self.state = ClientState::Active(id);
            },
            ClientEvent::RegistrationNickTaken => {
                let line = match &self.state {
                    ClientState::RegistrationInProgress(reg) => match &reg.nick {
                        Some(nick) => self.nick_taken_line(nick),
                        None => String::new(),
                    },
                    _ => String::new(),
                };
                take_mut::take(&mut self.state, reopen_registration);
                self.write_sendq(line.as_str().as_bytes());
            },
            ClientEvent::Send(msg) => {
                self.write_sendq(msg.as_str().as_bytes());
            },
        }
    }

    /// Handles one message of the client and says what to ask of the server, if
    /// anything. A connection waiting for the server reads nothing, and a message other
    /// than NICK and USER cannot come before registering.
    pub fn process_message(&mut self, msg: IrcMessage) -> (res: Option<ClientAction>)
        requires
            old(self).wf(),
            !(old(self).phase() is Registering),
            old(self).phase() is Pending ==> !(msg is Privmsg),
        ensures
            final(self).wf(),
            (final(self).phase(), opt_action_view(res)) == msg_step(old(self).phase(), msg),
            final(self).server_name() == old(self).server_name(),
            final(self).sendq_buffer() == old(self).sendq_buffer(),
            final(self).sendq_len() == old(self).sendq_len(),
    {
        let res = step_message(&mut self.state, msg);
        res
    }

    /// Whether the connection reads from its client.
    pub fn should_read(&self) -> (res: bool)
        ensures
            res == !(self.phase() is Registering),
    {
        self.state.should_read()
    }

    /// When the client goes away: a registered client is to be removed from the
    /// network. A connection waiting for the server reads nothing and so never sees
    /// its client go.
    pub fn process_disconnect(&self) -> (res: Option<ClientId>)
        requires
            !(self.phase() is Registering),
        ensures
            res == match self.phase() {
                PhaseView::Active(id) => Some(id),
                _ => None::<ClientId>,
            },
    {
        match &self.state {
            ClientState::Active(id) => Some(*id),
            _ => None,
        }
    }
}

impl ClientConnection {
    /// Frames the received `bytes` into lines and handles them in order, until the
    /// connection waits for the server or the codec stops short with bytes still waiting
    /// (`stalled`); lines not handled stay with the codec. A
    /// connection that waits for the server handles none. What is asked of the server
    /// comes back in order. `RecvQOverflow` says that what was left after the handled
    /// lines did not fit in the codec.
    #[verifier::rlimit(60)]
    #[verifier::spinoff_prover]
    pub fn process_bytes(&mut self, bytes: &[u8], codec: &mut LineCodec) -> (res: Result<
        Vec<ClientAction>,
        ClientError,
    >)
        requires
            old(self).wf(),
            old(codec).wf(),
            bytes@.len() > 0,
        ensures
            final(self).wf(),
            final(self).server_name() == old(self).server_name(),
            final(self).sendq_buffer() == old(self).sendq_buffer(),
            final(self).sendq_len() == old(self).sendq_len(),
            final(codec).wf(),
            ({
                let total = old(codec).pending() + bytes@;
                let o0 = old(codec).in_overflow();
                let lines = frame(fresh(o0), total).1;
                match res {
                    Ok(acts) => exists|k: nat|
                        #![trigger lines.take(k as int)]
                        k <= lines.len() && run_lines(old(self).phase(), lines.take(k as int)) == (
                            final(self).phase(),
                            acts@.map_values(|a: ClientAction| action_view(a)),
                            k,
                            None::<ClientError>,
                        ) && frame(fresh(final(codec).in_overflow()), final(codec).pending()).1
                            == lines.skip(k as int) && (old(codec).pending().len() + bytes@.len()
                            <= LINE_MAX && !(final(self).phase() is Registering) ==> k
                            == lines.len()) && (k == lines.len() || final(self).phase() is Registering
                            || exists|rest: Seq<u8>, p: int|
                            #![trigger stalled(total, rest, p)]
                            follows(o0, total, lines.take(k as int), rest) && stalled(
                                total,
                                rest,
                                p,
                            )),
                    Err(e) => match e {
                        ClientError::RecvQExhausted => old(codec).max_buffers() - old(
                            codec,
                        ).loaned_buffers() <= lines.len(),
                        ClientError::RecvQOverflow => {
                            &&& total.len() > LINE_MAX
                            &&& exists|k: nat, rest: Seq<u8>|
                                #![trigger follows(o0, total, lines.take(k as int), rest)]
                                {
                                    let r = run_lines(old(self).phase(), lines.take(k as int));
                                    &&& k <= lines.len()
                                    &&& r.0 == final(self).phase()
                                    &&& r.2 == k
                                    &&& r.3 is None
                                    &&& follows(o0, total, lines.take(k as int), rest)
                                    &&& rest.len() > LINE_MAX
                                    &&& (final(self).phase() is Registering || exists|p: int|
                                        stalled(total, rest, p))
                                }
                        },
                        _ => run_lines(old(self).phase(), lines).3 == Some(e),
                    },
                }
            }),
    {
        let ghost p0 = self.phase();
        let ghost fin = *final(codec);
        let ghost total = old(codec).pending() + bytes@;
        let ghost o0 = old(codec).in_overflow();
        let mut it = LineCodec::add_bytes(codec, bytes);
        let ghost lines = it.lines();
        let mut acts: Vec<ClientAction> = Vec::new();
        let ghost mut k: nat = 0;
        let mut err: Option<ClientError> = None;
        proof {
            assert(it.stream() =~= old(codec).pending() + bytes@);
            assert(lines.take(0) =~= Seq::<Seq<u8>>::empty());
            assert(lines.skip(0) =~= lines);
            assert(acts@.map_values(|a: ClientAction| action_view(a)) =~= Seq::<ActionView>::empty());
            assert(total.skip(0) =~= total);
            assert(dropped(total, total) =~= Seq::<u8>::empty());
            assert(at_line(o0, total, lines.take(0), it.stream(), it.codec.in_overflow()));
        }
        if self.should_read() {
            loop
                invariant_except_break
                    !(self.phase() is Registering),
                    err is None,
                    k + (it.codec.max_buffers() - it.codec.loaned_buffers()) >= old(
                        codec,
                    ).max_buffers() - old(codec).loaned_buffers(),
                invariant
                    self.wf(),
                    self.server_name() == old(self).server_name(),
                    self.sendq_buffer() == old(self).sendq_buffer(),
                    self.sendq_len() == old(self).sendq_len(),
                    it.codec.wf(),
                    *final(it.codec) == fin,
                    k <= lines.len(),
                    lines == frame(fresh(old(codec).in_overflow()), old(codec).pending() + bytes@).1,
                    total == old(codec).pending() + bytes@,
                    o0 == old(codec).in_overflow(),
                    err is None ==> at_line(o0, total, lines.take(k as int), it.stream(), it.codec.in_overflow()),
                    p0 == old(self).phase(),
                    old(codec).pending().len() + bytes@.len() <= LINE_MAX ==> it.stream().len()
                        <= LINE_MAX,
                    it.codec.max_buffers() == old(codec).max_buffers(),
                    err is None ==> {
                        &&& it.lines() == lines.skip(k as int)
                        &&& run_lines(p0, lines.take(k as int)) == (
                            self.phase(),
                            acts@.map_values(|a: ClientAction| action_view(a)),
                            k,
                            None::<ClientError>,
                        )
                    },
                    err matches Some(e) ==> match e {
                        ClientError::RecvQExhausted => old(codec).max_buffers() - old(
                            codec,
                        ).loaned_buffers() <= lines.len(),
                        ClientError::RecvQOverflow => false,
                        _ => run_lines(p0, lines).3 == Some(e),
                    },
                ensures
                    self.wf(),
                    self.server_name() == old(self).server_name(),
                    self.sendq_buffer() == old(self).sendq_buffer(),
                    self.sendq_len() == old(self).sendq_len(),
                    it.codec.wf(),
                    *final(it.codec) == fin,
                    k <= lines.len(),
                    err is None ==> {
                        &&& it.lines() == lines.skip(k as int)
                        &&& run_lines(p0, lines.take(k as int)) == (
                            self.phase(),
                            acts@.map_values(|a: ClientAction| action_view(a)),
                            k,
                            None::<ClientError>,
                        )
                    },
                    err matches Some(e) ==> match e {
                        ClientError::RecvQExhausted => old(codec).max_buffers() - old(
                            codec,
                        ).loaned_buffers() <= lines.len(),
                        ClientError::RecvQOverflow => false,
                        _ => run_lines(p0, lines).3 == Some(e),
                    },
                    err is None && old(codec).pending().len() + bytes@.len() <= LINE_MAX && !(
                    self.phase() is Registering) ==> k == lines.len(),
                    err is None ==> at_line(o0, total, lines.take(k as int), it.stream(), it.codec.in_overflow()),
                    err is None ==> self.phase() is Registering || (it.buffer@.len() == 0
                        && it.stream().len() <= LINE_MAX && k == lines.len()) || stalled(
                        total,
                        it.stream(),
                        it.codec.pending().len() as int,
                    ),
                    old(codec).pending().len() + bytes@.len() <= LINE_MAX ==> it.stream().len()
                        <= LINE_MAX,
                decreases lines.len() - k,
            {
                let ghost q = self.phase();
                let ghost rest = it.lines();
                let ghost codec_before = *it.codec;
                let ghost s_before = it.stream();
                let ghost ovf_before = it.codec.in_overflow();
                let buf = match it.try_next() {
                    Ok(Some(buf)) => buf,
                    Ok(None) => {
                        proof {
                            let s2 = it.stream();
                            let pl = it.codec.pending().len() as int;
                            assert(s2.take(pl) =~= it.codec.pending());
                            lemma_at_line_none_stop(
                                o0,
                                total,
                                lines.take(k as int),
                                s_before,
                                ovf_before,
                                s2,
                                it.codec.in_overflow(),
                                pl,
                            );
                            if it.buffer@.len() == 0 {
                                assert(it.lines().len() == 0);
                                assert(lines.skip(k as int).len() == 0);
                            }
                        }
                        break ;
                    },
                    Err(_) => {
                        proof {
                            assert(took(&codec_before, it.codec, false));
                            let kk = choose|kk: nat|
                                kk <= codec_before.loaned_buffers() && #[trigger] take_outcome(
                                    codec_before.free_buffers(),
                                    codec_before.loaned_buffers(),
                                    codec_before.max_buffers(),
                                    kk,
                                    it.codec.free_buffers(),
                                    it.codec.loaned_buffers(),
                                    false,
                                );
                        }
                        err = Some(ClientError::RecvQExhausted);
                        break ;
                    },
                };
                let ghost line = buf.bytes();
                proof {
                    let kk = choose|kk: nat|
                        kk <= codec_before.loaned_buffers() && #[trigger] take_outcome(
                            codec_before.free_buffers(),
                            codec_before.loaned_buffers(),
                            codec_before.max_buffers(),
                            kk,
                            it.codec.free_buffers(),
                            it.codec.loaned_buffers(),
                            true,
                        );
                    assert(rest[0] == line);
                    assert(lines[k as int] == line);
                    lemma_run_concat(p0, lines.take(k as int), lines.skip(k as int));
                    assert(lines.take(k as int) + lines.skip(k as int) =~= lines);
                    assert(it.lines() =~= lines.skip(k + 1 as int));
                    assert(lines.take(k as int).push(line) =~= lines.take(k + 1 as int));
                    lemma_at_line_some(
                        o0,
                        total,
                        lines.take(k as int),
                        s_before,
                        ovf_before,
                        it.stream(),
                        line,
                        it.codec.in_overflow(),
                    );
                }
                let raw = RawMessage::parse(buf);
                if !IrcMessage::supports(&raw) {
                    err = Some(ClientError::UnsupportedCommand);
                    break ;
                }
                let msg = match IrcMessage::from_raw(raw) {
                    Ok(msg) => msg,
                    Err(_) => {
                        err = Some(ClientError::WrongArgCount);
                        break ;
                    },
                };
                let unexpected = match (&self.state, &msg) {
                    (ClientState::Pending(_), IrcMessage::Privmsg(_)) => true,
                    _ => false,
                };
                if unexpected {
                    err = Some(ClientError::UnexpectedMessage);
                    break ;
                }
                proof {
                    lemma_step_agrees(q, msg, line);
                }
                let action = self.process_message(msg);
                let ghost before = acts@;
                let ghost av = opt_action_view(action);
                match action {
                    Some(a) => {
                        acts.push(a);
                    },
                    None => {},
                }
                proof {
                    lemma_run_concat(p0, lines.take(k as int), seq![line]);
                    assert(lines.take(k as int) + seq![line] =~= lines.take(k + 1 as int));
                    let r1 = run_lines(q, seq![line]);
                    assert(seq![line].drop_first() =~= Seq::<Seq<u8>>::empty());
                    let st = line_step(q, line);
                    assert(line_error(q, line) is None);
                    assert(run_lines(st.0, seq![line].drop_first()).1 =~= Seq::<ActionView>::empty());
                    assert(r1.1 =~= opt_seq(st.1) + Seq::<ActionView>::empty());
                    assert(r1.1 =~= opt_seq(av));
                    assert(acts@.map_values(|a: ClientAction| action_view(a)) =~= before.map_values(
                        |a: ClientAction| action_view(a),
                    ) + r1.1);
                    k = k + 1;
                }
                if !self.should_read() {
                    break ;
                }
            }
        }
        let ghost rest = it.stream();
        let ghost pl = it.codec.pending().len() as int;
        proof {
            if err is None {
                lemma_at_line_follows(o0, total, lines.take(k as int), rest, it.codec.in_overflow());
            }
        }
        let finished = it.finish();
        match err {
            Some(e) => Err(e),
            None => match finished {
                Ok(()) => {
                    proof {
                        if !(k == lines.len() || self.phase() is Registering) {
                            assert(stalled(total, rest, pl));
                        }
                    }
                    Ok(acts)
                },
                Err(()) => {
                    proof {
                        assert(rest.len() > LINE_MAX);
                        assert(total.len() > LINE_MAX);
                        if !(self.phase() is Registering) {
                            assert(stalled(total, rest, pl));
                        }
                        assert(follows(o0, total, lines.take(k as int), rest));
                    }
                    Err(ClientError::RecvQOverflow)
                },
            },
        }
    }
}

/// `rest` is what follows the lines `done` in the stream `total`: the bytes before it
/// frame to exactly those lines, the last of them possibly still waiting for the line
/// end at the front of `rest`.
pub open spec fn follows(from: bool, total: Seq<u8>, done: Seq<Seq<u8>>, rest: Seq<u8>) -> bool {
    let f = frame(fresh(from), dropped(total, rest));
    &&& suffix_of(rest, total)
    &&& {
        ||| f.0.cur.len() == 0 && f.1 == done
        ||| {
            &&& done.len() > 0
            &&& rest.len() > 0
            &&& is_line_end(rest[0])
            &&& f == (Framer { cur: done.last(), skipping: false }, done.drop_last())
        }
    }
}

/// The codec stopped handing out lines while bytes were still waiting: the `p` pending
/// bytes at the front of `rest` hold no line end, and with the bytes taken in before
/// them they came to `LINE_MAX`.
pub open spec fn stalled(total: Seq<u8>, rest: Seq<u8>, p: int) -> bool {
    &&& 0 <= p < rest.len()
    &&& p < LINE_MAX
    &&& no_line_end(rest.take(p))
    &&& total.len() - rest.len() + p >= LINE_MAX
}

/// Where framing stands after the bytes of `total` before `rest`, with the codec's
/// overflow flag `ovf`.
spec fn at_line(from: bool, total: Seq<u8>, done: Seq<Seq<u8>>, rest: Seq<u8>, ovf: bool) -> bool {
    let f = frame(fresh(from), dropped(total, rest));
    &&& suffix_of(rest, total)
    &&& {
        ||| f == (fresh(ovf), done)
        ||| {
            &&& done.len() > 0
            &&& !ovf
            &&& rest.len() > 0
            &&& is_line_end(rest[0])
            &&& valid_utf8(done.last())
            &&& 0 < done.last().len()
            &&& f == (Framer { cur: done.last(), skipping: false }, done.drop_last())
        }
    }
}

proof fn lemma_at_line_follows(from: bool, total: Seq<u8>, done: Seq<Seq<u8>>, rest: Seq<u8>, ovf: bool)
    requires
        at_line(from, total, done, rest, ovf),
    ensures
        follows(from, total, done, rest),
{
}

/// A line handed out moves framing on by that line.
proof fn lemma_at_line_some(
    from: bool,
    total: Seq<u8>,
    done: Seq<Seq<u8>>,
    s: Seq<u8>,
    ovf: bool,
    s2: Seq<u8>,
    line: Seq<u8>,
    ovf2: bool,
)
    requires
        at_line(from, total, done, s, ovf),
        suffix_of(s2, s),
        handed(ovf, dropped(s, s2), line, s2, ovf2),
    ensures
        at_line(from, total, done.push(line), s2, ovf2),
{
    let d = dropped(s, s2);
    let pre = dropped(total, s);
    lemma_drop_more(total, s, s2, false, false, false);
    lemma_frame_concat(fresh(from), pre, d);
    let x = frame(fresh(ovf), d);
    if frame(fresh(from), pre) == (fresh(ovf), done) {
        if ovf2 {
            assert(done + seq![line] =~= done.push(line));
        } else {
            assert(done + Seq::<Seq<u8>>::empty() =~= done);
            assert(done.push(line).drop_last() =~= done);
        }
    } else {
        let l = done.last();
        if d.len() == 0 {
            assert(frame(fresh(ovf), d) == (fresh(ovf), Seq::<Seq<u8>>::empty()));
            assert(seq![line].len() == 1);
            assert(false);
        }
        assert(d[0] == s[0]);
        lemma_frame_resume(l, d);
        assert(emit(l) == seq![l]);
        assert(done.drop_last() + (seq![l] + x.1) =~= done + x.1);
        if ovf2 {
            assert(done + seq![line] =~= done.push(line));
        } else {
            assert(done + Seq::<Seq<u8>>::empty() =~= done);
            assert(done.push(line).drop_last() =~= done);
        }
    }
}

/// Bytes dropped without a line leave framing at a fresh start after `done`.
proof fn lemma_at_line_none(
    from: bool,
    total: Seq<u8>,
    done: Seq<Seq<u8>>,
    s: Seq<u8>,
    ovf: bool,
    s2: Seq<u8>,
    ovf2: bool,
)
    requires
        at_line(from, total, done, s, ovf),
        suffix_of(s2, s),
        silent(ovf, dropped(s, s2), ovf2),
        s2.len() < s.len() || frame(fresh(from), dropped(total, s)) == (fresh(ovf), done),
    ensures
        at_line(from, total, done, s2, ovf2),
        frame(fresh(from), dropped(total, s2)) == (fresh(ovf2), done),
{
    let d = dropped(s, s2);
    let pre = dropped(total, s);
    lemma_drop_more(total, s, s2, false, false, false);
    lemma_frame_concat(fresh(from), pre, d);
    if frame(fresh(from), pre) == (fresh(ovf), done) {
        assert(done + Seq::<Seq<u8>>::empty() =~= done);
    } else {
        let l = done.last();
        assert(d[0] == s[0]);
        lemma_frame_resume(l, d);
        assert(emit(l) == seq![l]);
        assert(done.drop_last() + (seq![l] + Seq::<Seq<u8>>::empty()) =~= done);
    }
}

/// Where the codec stops with nothing to hand out, framing stands at a fresh start after
/// `done`: the pending `p` bytes hold no line end, and bytes wait behind them only once
/// `LINE_MAX` bytes were taken in.
proof fn lemma_at_line_none_stop(
    from: bool,
    total: Seq<u8>,
    done: Seq<Seq<u8>>,
    s: Seq<u8>,
    ovf: bool,
    s2: Seq<u8>,
    ovf2: bool,
    p: int,
)
    requires
        at_line(from, total, done, s, ovf),
        suffix_of(s2, s),
        silent(ovf, dropped(s, s2), ovf2),
        0 <= p <= s2.len(),
        p < LINE_MAX,
        no_line_end(s2.take(p)),
        p < s2.len() ==> s.len() - s2.len() + p >= LINE_MAX,
    ensures
        at_line(from, total, done, s2, ovf2),
        p < s2.len() ==> stalled(total, s2, p),
{
    if s2.len() == s.len() && frame(fresh(from), dropped(total, s)) != (fresh(ovf), done) {
        assert(s2 =~= s);
        if p > 0 {
            assert(s2.take(p)[0] == s[0]);
        }
    }
    lemma_at_line_none(from, total, done, s, ovf, s2, ovf2);
}

/// Writing to an empty send queue queues exactly the bytes written.
pub proof fn lemma_write_to_empty(a: &ClientConnection, b: &ClientConnection, msg: Seq<u8>)
    requires
        a.wf(),
        a.sendq_len() == 0,
        msg.len() <= SENDQ_MAX,
        written(a, b, msg),
    ensures
        b.sendq() == msg,
{
    assert(b.sendq() =~= msg);
}

} // verus!
