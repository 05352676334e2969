use crate::buffer::Buffer;
use crate::utf8::{lemma_boundary_after_ascii, lemma_boundary_at_ascii};
use vstd::prelude::*;
use vstd::string::StringSliceAdditionalSpecFns;
use vstd::utf8::{encode_utf8, encode_utf8_valid_utf8, is_char_boundary, is_char_boundary_start_end_of_seq, valid_utf8, valid_utf8_split};

verus! {

/// Arguments kept inline before the list moves to the heap.
pub const SMALL_SIZE: usize = 6;

pub open spec fn is_space(b: u8) -> bool {
    b == 32
}

pub open spec fn is_colon(b: u8) -> bool {
    b == 58
}

/// Where the argument scanner stands.
pub enum ParserState {
    BeforeArg,
    InArg(usize),
    InRestArg(usize),
}

/// The scanner's state: its mode, the arguments found so far as (start, length) byte
/// ranges, and the index of the command among them.
pub struct Scan {
    pub mode: ParserState,
    pub tokens: Seq<(usize, usize)>,
    pub cmd_index: usize,
}

pub open spec fn scan_start() -> Scan {
    Scan { mode: ParserState::BeforeArg, tokens: Seq::empty(), cmd_index: 0 }
}

/// One byte at index `i`. Spaces separate arguments. A colon before the first argument
/// marks a prefix, so the command is the second argument; a colon at the start of a
/// later argument makes the rest of the line one last argument.
pub open spec fn scan_step(s: Scan, i: usize, ch: u8) -> Scan {
    match s.mode {
        ParserState::BeforeArg => {
            if is_colon(ch) {
                if s.tokens.len() > 0 {
                    Scan { mode: ParserState::InRestArg((i + 1) as usize), ..s }
                } else {
                    Scan { cmd_index: 1, ..s }
                }
            } else if !is_space(ch) {
                Scan { mode: ParserState::InArg(i), ..s }
            } else {
                s
            }
        },
        ParserState::InArg(start) => {
            if is_space(ch) {
                Scan {
                    mode: ParserState::BeforeArg,
                    tokens: s.tokens.push((start, (i - start) as usize)),
                    cmd_index: s.cmd_index,
                }
            } else {
                s
            }
        },
        ParserState::InRestArg(_) => s,
    }
}

/// The scanner after the first `n` bytes.
pub open spec fn scan_prefix(b: Seq<u8>, n: nat) -> Scan
    decreases n,
{
    if n == 0 || n > b.len() {
        scan_start()
    } else {
        scan_step(scan_prefix(b, (n - 1) as nat), (n - 1) as usize, b[n - 1])
    }
}

/// All arguments of a line, the one still open at its end included.
pub open spec fn scan_tokens(b: Seq<u8>) -> Seq<(usize, usize)> {
    let s = scan_prefix(b, b.len());
    match s.mode {
        ParserState::InArg(start) => s.tokens.push((start, (b.len() - start) as usize)),
        ParserState::InRestArg(start) => s.tokens.push((start, (b.len() - start) as usize)),
        ParserState::BeforeArg => s.tokens,
    }
}

/// The argument list loses its seventh entry when it moves from inline storage to the
/// heap; later arguments are kept.
pub open spec fn drop_seventh(t: Seq<(usize, usize)>) -> Seq<(usize, usize)> {
    if t.len() > SMALL_SIZE {
        t.subrange(0, SMALL_SIZE as int) + t.subrange(SMALL_SIZE + 1, t.len() as int)
    } else {
        t
    }
}

/// The arguments that parsing keeps.
pub open spec fn parse_args(b: Seq<u8>) -> Seq<(usize, usize)> {
    drop_seventh(scan_tokens(b))
}

/// The index of the command among the arguments.
pub open spec fn parse_cmd_index(b: Seq<u8>) -> usize {
    scan_prefix(b, b.len()).cmd_index
}

/// An argument range is inside the line, starts after a space or colon (or at the
/// start), and ends at a space (or the end).
pub open spec fn good_range(b: Seq<u8>, r: (usize, usize)) -> bool {
    &&& r.0 + r.1 <= b.len()
    &&& (r.0 == 0 || is_space(b[r.0 - 1]) || is_colon(b[r.0 - 1]))
    &&& (r.0 + r.1 == b.len() || is_space(b[r.0 + r.1]))
}

pub open spec fn all_good(b: Seq<u8>, t: Seq<(usize, usize)>) -> bool {
    forall|i: int| 0 <= i < t.len() ==> good_range(b, #[trigger] t[i])
}

/// What the scanner's mode says about the bytes before index `i`.
pub open spec fn mode_good(b: Seq<u8>, mode: ParserState, i: int) -> bool {
    match mode {
        ParserState::BeforeArg => i == 0 || is_space(b[i - 1]) || is_colon(b[i - 1]),
        ParserState::InArg(s) => s < i && (s == 0 || is_space(b[s - 1]) || is_colon(b[s - 1])),
        ParserState::InRestArg(s) => 0 < s <= b.len() && is_colon(b[s - 1]),
    }
}

/// Once the rest argument has started, later bytes change nothing.
proof fn lemma_rest_absorbs(b: Seq<u8>, n: nat, m: nat)
    requires
        n <= m <= b.len(),
        scan_prefix(b, n).mode is InRestArg,
    ensures
        scan_prefix(b, m) == scan_prefix(b, n),
    decreases m - n,
{
    if m > n {
        lemma_rest_absorbs(b, n, (m - 1) as nat);
    }
}

/// Dropping the seventh argument keeps only arguments that were there.
proof fn lemma_drop_seventh_good(b: Seq<u8>, t: Seq<(usize, usize)>)
    requires
        all_good(b, t),
    ensures
        all_good(b, drop_seventh(t)),
{
    if t.len() > SMALL_SIZE {
        let d = drop_seventh(t);
        assert forall|i: int| 0 <= i < d.len() implies good_range(b, #[trigger] d[i]) by {
            if i < SMALL_SIZE {
                assert(d[i] == t[i]);
            } else {
                assert(d[i] == t[i + 1]);
            }
        }
    }
}

/// Appending to the full argument list and dropping the seventh entry commute.
proof fn lemma_drop_seventh_push(t: Seq<(usize, usize)>, x: (usize, usize))
    ensures
        t.len() == SMALL_SIZE ==> drop_seventh(t.push(x)) == t,
        t.len() != SMALL_SIZE ==> drop_seventh(t.push(x)) == drop_seventh(t).push(x),
{
    if t.len() == SMALL_SIZE {
        assert(drop_seventh(t.push(x)) =~= t);
    } else if t.len() > SMALL_SIZE {
        assert(drop_seventh(t.push(x)) =~= drop_seventh(t).push(x));
    }
}

/// An argument range inside the line that is not empty and holds no space.
pub open spec fn clean_range(b: Seq<u8>, r: (usize, usize)) -> bool {
    &&& r.1 > 0
    &&& r.0 + r.1 <= b.len()
    &&& forall|j: int| r.0 <= j < r.0 + r.1 ==> !is_space(#[trigger] b[j])
}

/// Whether the line ends in a rest argument, the one that a colon opens.
pub open spec fn ends_in_rest(b: Seq<u8>) -> bool {
    scan_prefix(b, b.len()).mode is InRestArg
}

/// Every argument the scanner closes is clean, and an argument still open holds no
/// space so far.
proof fn lemma_scan_clean(b: Seq<u8>, n: nat)
    requires
        n <= b.len(),
        b.len() <= usize::MAX,
    ensures
        forall|i: int|
            0 <= i < scan_prefix(b, n).tokens.len() ==> #[trigger] clean_range(
                b,
                scan_prefix(b, n).tokens[i],
            ),
        scan_prefix(b, n).mode matches ParserState::InArg(st) ==> st < n && forall|j: int|
            st <= j < n ==> !is_space(#[trigger] b[j]),
    decreases n,
{
    if n > 0 {
        let m = (n - 1) as nat;
        lemma_scan_clean(b, m);
        let p = scan_prefix(b, m);
        let q = scan_prefix(b, n);
        assert(q == scan_step(p, m as usize, b[m as int]));
        match p.mode {
            ParserState::InArg(st) => {
                if is_space(b[m as int]) {
                    assert forall|i: int| 0 <= i < q.tokens.len() implies #[trigger] clean_range(
                        b,
                        q.tokens[i],
                    ) by {
                        if i < p.tokens.len() {
                            assert(q.tokens[i] == p.tokens[i]);
                        }
                    }
                }
            },
            _ => {},
        }
    }
}

/// The shape of the arguments: each is non-empty and holds no space, but for a rest
/// argument at the end of the line.
pub proof fn lemma_args_shape(b: Seq<u8>)
    requires
        b.len() <= usize::MAX,
    ensures
        forall|i: int|
            0 <= i < parse_args(b).len() && (i + 1 < parse_args(b).len() || !ends_in_rest(b))
                ==> #[trigger] clean_range(b, parse_args(b)[i]),
{
    lemma_scan_clean(b, b.len());
    let s = scan_prefix(b, b.len());
    let t = scan_tokens(b);
    assert forall|j: int| 0 <= j < t.len() && (j + 1 < t.len() || !ends_in_rest(b)) implies #[trigger] clean_range(
        b,
        t[j],
    ) by {
        if j < s.tokens.len() {
            assert(t[j] == s.tokens[j]);
        }
    }
    let d = parse_args(b);
    assert forall|i: int| 0 <= i < d.len() && (i + 1 < d.len() || !ends_in_rest(b)) implies #[trigger] clean_range(
        b,
        d[i],
    ) by {
        if t.len() > SMALL_SIZE {
            if i < SMALL_SIZE {
                assert(d[i] == t[i]);
            } else {
                assert(d[i] == t[i + 1]);
            }
        }
    }
}

/// Tokens written one after the other, a space between each two.
pub open spec fn join_args(ts: Seq<Seq<u8>>) -> Seq<u8>
    decreases ts.len(),
{
    if ts.len() == 0 {
        Seq::empty()
    } else if ts.len() == 1 {
        ts[0]
    } else {
        join_args(ts.drop_last()) + seq![32u8] + ts.last()
    }
}

/// Where each token of `join_args(ts)` stands, as a (start, length) range.
pub open spec fn join_ranges(ts: Seq<Seq<u8>>) -> Seq<(usize, usize)>
    decreases ts.len(),
{
    if ts.len() == 0 {
        Seq::empty()
    } else if ts.len() == 1 {
        seq![(0usize, ts[0].len() as usize)]
    } else {
        join_ranges(ts.drop_last()).push(
            ((join_args(ts.drop_last()).len() + 1) as usize, ts.last().len() as usize),
        )
    }
}

/// A token as written in a line: not empty, without spaces, and not starting with a
/// colon.
pub open spec fn plain_token(t: Seq<u8>) -> bool {
    &&& t.len() > 0
    &&& !is_colon(t[0])
    &&& forall|j: int| 0 <= j < t.len() ==> !is_space(#[trigger] t[j])
}

/// A line made of tokens and, where there is one, a rest argument after ` :`.
pub open spec fn irc_line(ts: Seq<Seq<u8>>, rest: Option<Seq<u8>>) -> Seq<u8> {
    match rest {
        Some(r) => join_args(ts) + seq![32u8, 58u8] + r,
        None => join_args(ts),
    }
}

/// The scanner's state after `n` bytes depends on those bytes alone.
proof fn lemma_scan_prefix_ext(b: Seq<u8>, c: Seq<u8>, n: nat)
    requires
        n <= b.len(),
        n <= c.len(),
        b.take(n as int) == c.take(n as int),
    ensures
        scan_prefix(b, n) == scan_prefix(c, n),
    decreases n,
{
    if n > 0 {
        assert(b.take(n - 1) =~= b.take(n as int).take(n - 1));
        assert(c.take(n - 1) =~= c.take(n as int).take(n - 1));
        lemma_scan_prefix_ext(b, c, (n - 1) as nat);
        assert(b[n - 1] == b.take(n as int)[n - 1]);
        assert(c[n - 1] == c.take(n as int)[n - 1]);
    }
}

/// A token that starts between arguments is collected up to where it ends.
proof fn lemma_collect(b: Seq<u8>, st: nat, e: nat)
    requires
        st < e <= b.len(),
        b.len() <= usize::MAX,
        scan_prefix(b, st).mode is BeforeArg,
        !is_colon(b[st as int]),
        forall|j: int| st <= j < e ==> !is_space(#[trigger] b[j]),
    ensures
        scan_prefix(b, e) == (Scan { mode: ParserState::InArg(st as usize), ..scan_prefix(b, st) }),
    decreases e,
{
    if e > st + 1 {
        lemma_collect(b, st, (e - 1) as nat);
    }
}

/// Scanning joined plain tokens leaves the last one open and the others found where
/// they stand.
#[verifier::rlimit(60)]
#[verifier::spinoff_prover]
proof fn lemma_scan_join(ts: Seq<Seq<u8>>)
    requires
        ts.len() > 0,
        forall|i: int| 0 <= i < ts.len() ==> plain_token(#[trigger] ts[i]),
        join_args(ts).len() + 2 <= usize::MAX,
    ensures
        ({
            let b = join_args(ts);
            let r = join_ranges(ts);
            &&& r.len() == ts.len()
            &&& r.last().0 + r.last().1 == b.len()
            &&& scan_prefix(b, b.len()) == (Scan {
                mode: ParserState::InArg(r.last().0),
                tokens: r.drop_last(),
                cmd_index: 0,
            })
            &&& forall|i: int|
                #![trigger ts[i]]
                0 <= i < ts.len() ==> r[i].0 + r[i].1 <= b.len() && b.subrange(
                    r[i].0 as int,
                    r[i].0 + r[i].1,
                ) == ts[i]
        }),
    decreases ts.len(),
{
    let b = join_args(ts);
    let r = join_ranges(ts);
    if ts.len() == 1 {
        let t = ts[0];
        assert(plain_token(t));
        lemma_collect(b, 0, b.len());
        assert(b.subrange(0, b.len() as int) =~= t);
        assert(r.drop_last() =~= Seq::<(usize, usize)>::empty());
        assert forall|i: int|
            #![trigger r[i]]
            0 <= i < ts.len() implies r[i].0 + r[i].1 <= b.len() && b.subrange(
            r[i].0 as int,
            r[i].0 + r[i].1,
        ) == ts[i] by {
            assert(i == 0);
            assert(r[i] == (0usize, b.len() as usize));
        }
        assert(r.len() == ts.len());
        assert(r.last().0 + r.last().1 == b.len());
        assert(scan_prefix(b, b.len()) == (Scan {
                mode: ParserState::InArg(r.last().0),
                tokens: r.drop_last(),
                cmd_index: 0,
            }));
    } else {
        let us = ts.drop_last();
        let t = ts.last();
        assert(plain_token(t));
        assert forall|i: int| 0 <= i < us.len() implies plain_token(#[trigger] us[i]) by {
            assert(us[i] == ts[i]);
        }
        let a = join_args(us);
        let l = a.len();
        assert(b == a + seq![32u8] + t);
        lemma_scan_join(us);
        let ra = join_ranges(us);
        assert(a.take(l as int) =~= a);
        assert(b.take(l as int) =~= a);
        lemma_scan_prefix_ext(a, b, l);
        assert(b[l as int] == 32u8);
        let p1 = scan_prefix(b, l + 1);
        assert(p1.mode is BeforeArg);
        assert(p1.tokens == ra.drop_last().push(ra.last()));
        assert(ra.drop_last().push(ra.last()) =~= ra);
        assert forall|j: int| l + 1 <= j < b.len() implies !is_space(#[trigger] b[j]) by {
            assert(b[j] == t[j - l - 1]);
        }
        assert(b[l + 1int] == t[0]);
        lemma_collect(b, l + 1, b.len());
        assert(r == ra.push(((l + 1) as usize, t.len() as usize)));
        assert(r.drop_last() =~= ra);
        assert forall|i: int|
            #![trigger r[i]]
            0 <= i < ts.len() implies r[i].0 + r[i].1 <= b.len() && b.subrange(
            r[i].0 as int,
            r[i].0 + r[i].1,
        ) == ts[i] by {
            if i < us.len() {
                assert(r[i] == ra[i]);
                assert(a.subrange(ra[i].0 as int, ra[i].0 + ra[i].1) == us[i]);
                assert(b.subrange(r[i].0 as int, r[i].0 + r[i].1) =~= a.subrange(
                    ra[i].0 as int,
                    ra[i].0 + ra[i].1,
                ));
            } else {
                assert(b.subrange(r[i].0 as int, r[i].0 + r[i].1) =~= t);
            }
        }
        assert(r.len() == ts.len());
        assert(r.last().0 + r.last().1 == b.len());
        assert(scan_prefix(b, b.len()).tokens == r.drop_last());
        assert(scan_prefix(b, b.len()).cmd_index == 0);
        assert(scan_prefix(b, b.len()).mode == ParserState::InArg(r.last().0));
    }
}

/// A line of tokens followed by ` :` and `x` scans to the tokens and one rest argument
/// holding `x`.
#[verifier::rlimit(60)]
#[verifier::spinoff_prover]
proof fn lemma_scan_rest(ts: Seq<Seq<u8>>, x: Seq<u8>)
    requires
        ts.len() > 0,
        forall|i: int| 0 <= i < ts.len() ==> plain_token(#[trigger] ts[i]),
        irc_line(ts, Some(x)).len() + 2 <= usize::MAX,
    ensures
        ({
            let l = join_args(ts).len();
            let b = irc_line(ts, Some(x));
            &&& scan_tokens(b) == join_ranges(ts).push(((l + 2) as usize, x.len() as usize))
            &&& parse_cmd_index(b) == 0
            &&& b.subrange(l + 2int, b.len() as int) == x
        }),
{
    let j = join_args(ts);
    let b = irc_line(ts, Some(x));
    let l = j.len();
    assert(b == j + seq![32u8, 58u8] + x);
    lemma_scan_join(ts);
    let r = join_ranges(ts);
    assert(r.drop_last().push(r.last()) =~= r);
    assert(j.take(l as int) =~= j);
    assert(b.take(l as int) =~= j);
    lemma_scan_prefix_ext(j, b, l);
    assert(b[l as int] == 32u8);
    assert(b[l + 1int] == 58u8);
    assert(scan_prefix(b, l + 1).tokens == r);
    assert(scan_prefix(b, l + 2).mode == ParserState::InRestArg((l + 2) as usize));
    lemma_rest_absorbs(b, l + 2, b.len());
    assert(b.subrange(l + 2int, b.len() as int) =~= x);
}

/// Taking a range that lies within the first part of a sequence.
proof fn lemma_subrange_front(j: Seq<u8>, tail: Seq<u8>, lo: int, hi: int)
    requires
        0 <= lo <= hi <= j.len(),
    ensures
        (j + tail).subrange(lo, hi) == j.subrange(lo, hi),
{
    assert((j + tail).subrange(lo, hi) =~= j.subrange(lo, hi));
}

/// Parsing gives back what a line was made of: each token as an argument, in order,
/// then the rest argument where there is one, with the first token as the command.
#[verifier::rlimit(60)]
#[verifier::spinoff_prover]
pub proof fn lemma_parse_round_trip(ts: Seq<Seq<u8>>, rest: Option<Seq<u8>>)
    requires
        ts.len() > 0,
        forall|i: int| 0 <= i < ts.len() ==> plain_token(#[trigger] ts[i]),
        ts.len() + (if rest is Some { 1int } else { 0int }) <= SMALL_SIZE,
        irc_line(ts, rest).len() + 2 <= usize::MAX,
    ensures
        ({
            let b = irc_line(ts, rest);
            let a = parse_args(b);
            &&& a.len() == ts.len() + (if rest is Some { 1int } else { 0int })
            &&& forall|i: int|
                0 <= i < ts.len() ==> #[trigger] b.subrange(a[i].0 as int, a[i].0 + a[i].1)
                    == ts[i]
            &&& rest matches Some(r) ==> b.subrange(
                a[ts.len() as int].0 as int,
                a[ts.len() as int].0 + a[ts.len() as int].1,
            ) == r
            &&& parse_cmd_index(b) == 0
        }),
{
    let j = join_args(ts);
    let b = irc_line(ts, rest);
    lemma_scan_join(ts);
    let r = join_ranges(ts);
    match rest {
        None => {
            assert(r.drop_last().push(r.last()) =~= r);
            assert(scan_tokens(b) == r);
        },
        Some(x) => {
            lemma_scan_rest(ts, x);
            let a = scan_tokens(b);
            assert(b == j + (seq![32u8, 58u8] + x));
            assert forall|i: int| 0 <= i < ts.len() implies #[trigger] b.subrange(
                a[i].0 as int,
                a[i].0 + a[i].1,
            ) == ts[i] by {
                assert(a[i] == r[i]);
                assert(j.subrange(r[i].0 as int, r[i].0 + r[i].1) == ts[i]);
                lemma_subrange_front(j, seq![32u8, 58u8] + x, r[i].0 as int, r[i].0 + r[i].1);
            }
        },
    }
}

/// Argument ranges, stored inline while there are few of them.
enum IrcArgs {
    Fixed(usize, [Option<(usize, usize)>; 6]),
    VarLength(Vec<(usize, usize)>),
}

impl IrcArgs {
    spec fn view(&self) -> Seq<(usize, usize)> {
        match self {
            IrcArgs::Fixed(count, args) => Seq::new(*count as nat, |i: int| args@[i]->0),
            IrcArgs::VarLength(args) => args@,
        }
    }

    spec fn is_fixed(&self) -> bool {
        self is Fixed
    }

    spec fn wf(&self) -> bool {
        match self {
            IrcArgs::Fixed(count, args) => {
                &&& *count <= SMALL_SIZE
                &&& forall|i: int| 0 <= i < *count ==> (#[trigger] args@[i]) is Some
            },
            IrcArgs::VarLength(_) => true,
        }
    }

    fn append(&mut self, arg: (usize, usize))
        requires
            old(self).wf(),
        ensures
            final(self).wf(),
            old(self).is_fixed() && old(self).view().len() == SMALL_SIZE ==> final(self).view()
                == old(self).view() && !final(self).is_fixed(),
            !(old(self).is_fixed() && old(self).view().len() == SMALL_SIZE) ==> final(self).view()
                == old(self).view().push(arg) && final(self).is_fixed() == old(self).is_fixed(),
    {
        match self {
            IrcArgs::VarLength(args) => {
                args.push(arg);
            },
            IrcArgs::Fixed(count, args) => {
                let c = *count;
                if c < SMALL_SIZE {
                    let mut a = *args;
                    a[c] = Some(arg);
                    *self = IrcArgs::Fixed(c + 1, a);
                    assert(self.view() =~= old(self).view().push(arg));
                } else {
                    let a = *args;
                    let mut rest: Vec<(usize, usize)> = Vec::new();
                    let mut i: usize = 0;
                    while i < SMALL_SIZE
                        invariant
                            0 <= i <= SMALL_SIZE,
                            c == SMALL_SIZE,
                            old(self).view().len() == SMALL_SIZE,
                            rest@.len() == i,
                            forall|k: int| 0 <= k < SMALL_SIZE ==> (#[trigger] a@[k]) is Some,
                            forall|k: int| 0 <= k < i ==> rest@[k] == (#[trigger] a@[k])->0,
                            forall|k: int| 0 <= k < SMALL_SIZE ==> old(self).view()[k] == (#[trigger] a@[k])->0,
                        decreases SMALL_SIZE - i,
                    {
                        match a[i] {
                            Some(v) => rest.push(v),
                            None => {},
                        }
                        i = i + 1;
                    }
                    *self = IrcArgs::VarLength(rest);
                    assert(self.view() =~= old(self).view());
                }
            },
        }
    }

    fn len(&self) -> (res: usize)
        requires
            self.wf(),
        ensures
            res == self.view().len(),
    {
        match self {
            IrcArgs::VarLength(args) => args.len(),
            IrcArgs::Fixed(count, _) => *count,
        }
    }

    fn arg(&self, index: usize) -> (res: (usize, usize))
        requires
            self.wf(),
            index < self.view().len(),
        ensures
            res == self.view()[index as int],
    {
        match self {
            IrcArgs::VarLength(args) => args[index],
            IrcArgs::Fixed(_, args) => match args[index] {
                Some(v) => v,
                None => (0, 0),
            },
        }
    }
}

/// An IRC line split into arguments, kept as byte ranges into its buffer.
pub struct RawMessage {
    buffer: Buffer,
    args: IrcArgs,
    cmd_index: usize,
}

impl RawMessage {
    #[verifier::type_invariant]
    spec fn parsed(self) -> bool {
        &&& self.args.wf()
        &&& self.args.view() == parse_args(self.buffer.bytes())
        &&& self.cmd_index == parse_cmd_index(self.buffer.bytes())
        &&& all_good(self.buffer.bytes(), self.args.view())
    }

    /// The UTF-8 bytes of the line.
    pub closed spec fn bytes(&self) -> Seq<u8> {
        self.buffer.bytes()
    }

    /// The argument ranges.
    pub closed spec fn args(&self) -> Seq<(usize, usize)> {
        self.args.view()
    }

    pub closed spec fn cmd_index(&self) -> nat {
        self.cmd_index as nat
    }

    /// The bytes of argument `i`.
    pub open spec fn arg_bytes(&self, i: int) -> Seq<u8> {
        self.bytes().subrange(self.args()[i].0 as int, self.args()[i].0 + self.args()[i].1)
    }

    /// Splits the line held by `buffer` into arguments.
    pub fn parse(buffer: Buffer) -> (res: RawMessage)
        ensures
            res.bytes() == buffer.bytes(),
            res.args() == parse_args(buffer.bytes()),
            res.cmd_index() == parse_cmd_index(buffer.bytes()),
    {
        let mut args = IrcArgs::Fixed(0, [None, None, None, None, None, None]);
        let mut cmd_index: usize = 0;
        let mut state = ParserState::BeforeArg;
        let ghost mut tokens: Seq<(usize, usize)> = Seq::empty();
        let bytes = buffer.as_str().as_bytes();
        let ghost b = bytes@;
        let n = bytes.len();
        assert(args.view() =~= Seq::<(usize, usize)>::empty());
        let mut index: usize = 0;
        while index < n
            invariant_except_break
                0 <= index <= n,
                n == b.len(),
                bytes@ == b,
                b == buffer.bytes(),
                (Scan { mode: state, tokens, cmd_index }) == scan_prefix(b, index as nat),
                args.wf(),
                args.view() == drop_seventh(tokens),
                args.is_fixed() == (tokens.len() <= SMALL_SIZE),
                all_good(b, tokens),
                mode_good(b, state, index as int),
            ensures
                n == b.len(),
                b == buffer.bytes(),
                (Scan { mode: state, tokens, cmd_index }) == scan_prefix(b, n as nat),
                args.wf(),
                args.view() == drop_seventh(tokens),
                args.is_fixed() == (tokens.len() <= SMALL_SIZE),
                all_good(b, tokens),
                mode_good(b, state, n as int),
            decreases n - index,
        {
            let ch = bytes[index];
            let ghost prev = Scan { mode: state, tokens, cmd_index };
            assert(scan_prefix(b, (index + 1) as nat) == scan_step(prev, index, ch));
            match state {
                ParserState::BeforeArg => {
                    if ch == 58 {
                        if args.len() > 0 {
                            state = ParserState::InRestArg(index + 1);
                            proof {
                                assert((Scan { mode: state, tokens, cmd_index }) == scan_prefix(
                                    b,
                                    (index + 1) as nat,
                                ));
                                lemma_rest_absorbs(b, (index + 1) as nat, n as nat);
                            }
                            break ;
                        } else {
                            cmd_index = 1;
                        }
                    } else if ch != 32 {
                        state = ParserState::InArg(index);
                    }
                },
                ParserState::InArg(start) => {
                    if ch == 32 {
                        proof {
                            lemma_drop_seventh_push(tokens, (start, (index - start) as usize));
                        }
                        args.append((start, index - start));
                        proof {
                            tokens = tokens.push((start, (index - start) as usize));
                        }
                        state = ParserState::BeforeArg;
                    }
                },
                ParserState::InRestArg(_) => {},
            }
            index = index + 1;
        }
        let ghost scanned = tokens;
        match state {
            ParserState::InArg(start) => {
                proof {
                    lemma_drop_seventh_push(tokens, (start, (n - start) as usize));
                }
                args.append((start, n - start));
                proof {
                    tokens = tokens.push((start, (n - start) as usize));
                }
            },
            ParserState::InRestArg(start) => {
                proof {
                    lemma_drop_seventh_push(tokens, (start, (n - start) as usize));
                }
                args.append((start, n - start));
                proof {
                    tokens = tokens.push((start, (n - start) as usize));
                }
            },
            ParserState::BeforeArg => {},
        }
        proof {
            assert(tokens == scan_tokens(b));
            lemma_drop_seventh_good(b, tokens);
        }
        RawMessage { buffer, args, cmd_index }
    }

    pub fn len(&self) -> (res: usize)
        ensures
            res == self.args().len(),
            self.args() == parse_args(self.bytes()),
            self.cmd_index() == parse_cmd_index(self.bytes()),
    {
        proof {
            use_type_invariant(self);
        }
        self.args.len()
    }

    pub fn arg(&self, index: usize) -> (res: &str)
        requires
            index < self.args().len(),
        ensures
            res.spec_bytes() == self.arg_bytes(index as int),
    {
        proof {
            use_type_invariant(self);
        }
        let (start, len) = self.args.arg(index);
        let text = self.buffer.as_str();
        let ghost b = text.spec_bytes();
        proof {
            assert(b == self.bytes());
            assert(good_range(b, self.args.view()[index as int]));
        }
        let end = start + len;
        proof {
            encode_utf8_valid_utf8(text@);
            assert(good_range(b, self.args.view()[index as int]));
            is_char_boundary_start_end_of_seq(b);
            if end < b.len() {
                lemma_boundary_at_ascii(b, end as int);
            }
        }
        let (head, _) = text.split_at(end);
        proof {
            let hb = head.spec_bytes();
            assert(hb =~= b.subrange(0, end as int));
            valid_utf8_split(b, end as int);
            is_char_boundary_start_end_of_seq(hb);
            if start > 0 {
                assert(hb[start - 1] == b[start - 1]);
                lemma_boundary_after_ascii(hb, start - 1);
            }
        }
        let (_, piece) = head.split_at(start);
        proof {
            assert(piece.spec_bytes() =~= b.subrange(start as int, end as int));
        }
        piece
    }

    /// Which argument is the command: the second when the line starts with a prefix.
    pub fn command_index(&self) -> (res: usize)
        ensures
            res == self.cmd_index(),
    {
        self.cmd_index
    }

    pub fn command(&self) -> (res: &str)
        requires
            self.cmd_index() < self.args().len(),
        ensures
            res.spec_bytes() == self.arg_bytes(self.cmd_index() as int),
    {
        self.arg(self.cmd_index)
    }
}

} // verus!
