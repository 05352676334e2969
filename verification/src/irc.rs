use crate::buffer::Buffer;
use crate::raw::{parse_args, parse_cmd_index, RawMessage};
use vstd::prelude::*;
use vstd::string::StringSliceAdditionalSpecFns;

verus! {

/// ASCII upper-case letters map to lower case; every other byte stays.
pub open spec fn ascii_lower(c: u8) -> u8 {
    if 65 <= c <= 90 {
        (c + 32) as u8
    } else {
        c
    }
}

/// Equal up to ASCII case, as `str::eq_ignore_ascii_case` compares.
pub open spec fn eq_ignore_case(a: Seq<u8>, b: Seq<u8>) -> bool {
    a.len() == b.len() && forall|i: int| 0 <= i < a.len() ==> ascii_lower(#[trigger] a[i]) == ascii_lower(b[i])
}

/// Two bytes are the same letter up to ASCII case exactly when they are equal, or one
/// is an upper-case letter `A`..`Z` and the other is that letter 32 higher, its lower
/// case.
pub proof fn lemma_same_up_to_case(x: u8, y: u8)
    ensures
        ascii_lower(x) == ascii_lower(y) <==> (x == y || (65 <= x <= 90 && y == x + 32) || (65
            <= y <= 90 && x == y + 32)),
{
}

/// Two byte strings are equal ignoring ASCII case exactly when they have the same
/// length and each pair of bytes is equal or the same letter in its two cases.
pub proof fn lemma_eq_ignore_case_bytes(a: Seq<u8>, b: Seq<u8>)
    ensures
        eq_ignore_case(a, b) <==> a.len() == b.len() && forall|i: int|
            0 <= i < a.len() ==> (#[trigger] a[i] == b[i] || (65 <= a[i] <= 90 && b[i] == a[i] + 32)
                || (65 <= b[i] <= 90 && a[i] == b[i] + 32)),
{
    assert forall|i: int| 0 <= i < a.len() && i < b.len() implies (ascii_lower(#[trigger] a[i])
        == ascii_lower(b[i]) <==> (a[i] == b[i] || (65 <= a[i] <= 90 && b[i] == a[i] + 32) || (65
        <= b[i] <= 90 && a[i] == b[i] + 32))) by {
        lemma_same_up_to_case(a[i], b[i]);
    }
}

/// Case does not matter to the comparison: a byte string matches itself with any of its
/// ASCII letters swapped to the other case, and matching is symmetric.
pub proof fn lemma_eq_ignore_case_swap(a: Seq<u8>, b: Seq<u8>)
    requires
        a.len() == b.len(),
        forall|i: int|
            0 <= i < a.len() ==> (#[trigger] b[i] == a[i] || (65 <= a[i] <= 90 && b[i] == a[i] + 32)
                || (97 <= a[i] <= 122 && b[i] == a[i] - 32)),
    ensures
        eq_ignore_case(a, b),
        eq_ignore_case(b, a),
{
    lemma_eq_ignore_case_bytes(a, b);
    lemma_eq_ignore_case_bytes(b, a);
}

pub open spec fn nick_command() -> Seq<u8> {
    seq![78u8, 73, 67, 75]
}

pub open spec fn user_command() -> Seq<u8> {
    seq![85u8, 83, 69, 82]
}

pub open spec fn privmsg_command() -> Seq<u8> {
    seq![80u8, 82, 73, 86, 77, 83, 71]
}

/// The command of a parsed line, as bytes.
pub open spec fn command_bytes(b: Seq<u8>) -> Seq<u8> {
    let r = parse_args(b)[parse_cmd_index(b) as int];
    b.subrange(r.0 as int, r.0 + r.1)
}

/// The line has a command, and it is one that is understood.
pub open spec fn is_supported(b: Seq<u8>) -> bool {
    &&& parse_cmd_index(b) < parse_args(b).len()
    &&& {
        ||| eq_ignore_case(command_bytes(b), nick_command())
        ||| eq_ignore_case(command_bytes(b), user_command())
        ||| eq_ignore_case(command_bytes(b), privmsg_command())
    }
}

fn ascii_lower_byte(c: u8) -> (res: u8)
    ensures
        res == ascii_lower(c),
{
    if 65 <= c && c <= 90 {
        c + 32
    } else {
        c
    }
}

/// Compares two byte strings up to ASCII case.
pub fn eq_ignore_ascii_case(a: &[u8], b: &[u8]) -> (res: bool)
    ensures
        res == eq_ignore_case(a@, b@),
{
    if a.len() != b.len() {
        return false;
    }
    let mut i: usize = 0;
    while i < a.len()
        invariant
            0 <= i <= a@.len(),
            a@.len() == b@.len(),
            forall|k: int| 0 <= k < i ==> ascii_lower(#[trigger] a@[k]) == ascii_lower(b@[k]),
        decreases a@.len() - i,
    {
        if ascii_lower_byte(a[i]) != ascii_lower_byte(b[i]) {
            return false;
        }
        i = i + 1;
    }
    true
}

pub enum IrcMessage {
    NickRequest(IrcNickRequestMessage),
    User(IrcUserMessage),
    Privmsg(IrcPrivateMessage),
}

pub enum IrcMessageError {
    WrongArgCount(RawMessage),
}

/// The parse of a line, as `IrcMessage::from` hands it on.
pub open spec fn same_parse(m: RawMessage, b: Seq<u8>) -> bool {
    &&& m.bytes() == b
    &&& m.args() == parse_args(b)
    &&& m.cmd_index() == parse_cmd_index(b)
}

/// The command of a parsed line, when there is one, and how many arguments it takes.
pub open spec fn expected_len(cmd: Seq<u8>) -> nat {
    if eq_ignore_case(cmd, nick_command()) {
        2
    } else if eq_ignore_case(cmd, user_command()) {
        5
    } else {
        3
    }
}

/// What `IrcMessage::from` gives for the line `b`: the variant its command names when
/// the argument count fits, and the parsed line back otherwise.
pub open spec fn from_result(res: Result<IrcMessage, IrcMessageError>, b: Seq<u8>) -> bool {
    let cmd = command_bytes(b);
    let n = parse_args(b).len();
    match res {
        Ok(IrcMessage::NickRequest(m)) => {
            &&& eq_ignore_case(cmd, nick_command())
            &&& n == 2
            &&& same_parse(m.raw(), b)
        },
        Ok(IrcMessage::User(m)) => {
            &&& !eq_ignore_case(cmd, nick_command())
            &&& eq_ignore_case(cmd, user_command())
            &&& n == 5
            &&& same_parse(m.raw(), b)
        },
        Ok(IrcMessage::Privmsg(m)) => {
            &&& !eq_ignore_case(cmd, nick_command())
            &&& !eq_ignore_case(cmd, user_command())
            &&& eq_ignore_case(cmd, privmsg_command())
            &&& n == 3
            &&& same_parse(m.raw(), b)
        },
        Err(IrcMessageError::WrongArgCount(m)) => {
            &&& n != expected_len(cmd)
            &&& same_parse(m, b)
        },
    }
}

impl IrcMessage {
    /// Whether `from_raw` understands the parsed line.
    pub fn supports(msg: &RawMessage) -> (res: bool)
        ensures
            res == is_supported(msg.bytes()),
    {
        let n = msg.len();
        if msg.command_index() >= n {
            return false;
        }
        let cmd = msg.command().as_bytes();
        let nick: [u8; 4] = [78, 73, 67, 75];
        let user: [u8; 4] = [85, 83, 69, 82];
        let privmsg: [u8; 7] = [80, 82, 73, 86, 77, 83, 71];
        proof {
            assert(nick@ =~= nick_command());
            assert(user@ =~= user_command());
            assert(privmsg@ =~= privmsg_command());
        }
        eq_ignore_ascii_case(cmd, nick.as_slice()) || eq_ignore_ascii_case(cmd, user.as_slice())
            || eq_ignore_ascii_case(cmd, privmsg.as_slice())
    }

    /// Recognizes the command of a parsed line and checks its argument count.
    pub fn from_raw(msg: RawMessage) -> (res: Result<IrcMessage, IrcMessageError>)
        requires
            is_supported(msg.bytes()),
        ensures
            from_result(res, msg.bytes()),
    {
        let n = msg.len();
        let ghost b = msg.bytes();
        let cmd = msg.command().as_bytes();
        let nick: [u8; 4] = [78, 73, 67, 75];
        let user: [u8; 4] = [85, 83, 69, 82];
        proof {
            assert(nick@ =~= nick_command());
            assert(user@ =~= user_command());
        }
        if eq_ignore_ascii_case(cmd, nick.as_slice()) {
            if n != 2 {
                Err(IrcMessageError::WrongArgCount(msg))
            } else {
                Ok(IrcNickRequestMessage::wrapped(msg))
            }
        } else if eq_ignore_ascii_case(cmd, user.as_slice()) {
            if n != 5 {
                Err(IrcMessageError::WrongArgCount(msg))
            } else {
                Ok(IrcUserMessage::wrapped(msg))
            }
        } else {
            if n != 3 {
                Err(IrcMessageError::WrongArgCount(msg))
            } else {
                Ok(IrcPrivateMessage::wrapped(msg))
            }
        }
    }

    /// Parses the line in `buf` and recognizes its command.
    pub fn from(buf: Buffer) -> (res: Result<IrcMessage, IrcMessageError>)
        requires
            is_supported(buf.bytes()),
        ensures
            from_result(res, buf.bytes()),
    {
        let msg = RawMessage::parse(buf);
        Self::from_raw(msg)
    }
}

pub struct IrcNickRequestMessage {
    msg: RawMessage,
}

impl IrcNickRequestMessage {
    #[verifier::type_invariant]
    spec fn two_args(self) -> bool {
        self.msg.args().len() == 2
    }

    pub closed spec fn raw(&self) -> RawMessage {
        self.msg
    }

    fn wrapped(msg: RawMessage) -> (res: IrcMessage)
        requires
            msg.args().len() == 2,
        ensures
            res matches IrcMessage::NickRequest(m) && m.raw() == msg,
    {
        IrcMessage::NickRequest(IrcNickRequestMessage { msg })
    }

    pub fn nick(&self) -> (res: &str)
        ensures
            res.spec_bytes() == self.raw().arg_bytes(1),
    {
        proof {
            use_type_invariant(self);
        }
        self.msg.arg(1)
    }
}

pub struct IrcUserMessage {
    msg: RawMessage,
}

impl IrcUserMessage {
    #[verifier::type_invariant]
    spec fn five_args(self) -> bool {
        self.msg.args().len() == 5
    }

    pub closed spec fn raw(&self) -> RawMessage {
        self.msg
    }

    fn wrapped(msg: RawMessage) -> (res: IrcMessage)
        requires
            msg.args().len() == 5,
        ensures
            res matches IrcMessage::User(m) && m.raw() == msg,
    {
        IrcMessage::User(IrcUserMessage { msg })
    }

    pub fn ident(&self) -> (res: &str)
        ensures
            res.spec_bytes() == self.raw().arg_bytes(1),
    {
        proof {
            use_type_invariant(self);
        }
        self.msg.arg(1)
    }

    pub fn gecos(&self) -> (res: &str)
        ensures
            res.spec_bytes() == self.raw().arg_bytes(4),
    {
        proof {
            use_type_invariant(self);
        }
        self.msg.arg(4)
    }
}

pub struct IrcPrivateMessage {
    msg: RawMessage,
}

impl IrcPrivateMessage {
    #[verifier::type_invariant]
    spec fn three_args(self) -> bool {
        self.msg.args().len() == 3
    }

    pub closed spec fn raw(&self) -> RawMessage {
        self.msg
    }

    fn wrapped(msg: RawMessage) -> (res: IrcMessage)
        requires
            msg.args().len() == 3,
        ensures
            res matches IrcMessage::Privmsg(m) && m.raw() == msg,
    {
        IrcMessage::Privmsg(IrcPrivateMessage { msg })
    }

    pub fn target(&self) -> (res: &str)
        ensures
            res.spec_bytes() == self.raw().arg_bytes(1),
    {
        proof {
            use_type_invariant(self);
        }
        self.msg.arg(1)
    }

    pub fn message(&self) -> (res: &str)
        ensures
            res.spec_bytes() == self.raw().arg_bytes(2),
    {
        proof {
            use_type_invariant(self);
        }
        self.msg.arg(2)
    }
}

} // verus!
