use crate::buffer::{take_outcome, Buffer, BufferError, BufferPool};
use crate::framing::{
    lemma_frame_collect, lemma_frame_full, lemma_frame_concat, lemma_silent_bad_full, lemma_silent_bad_line, lemma_silent_concat, lemma_silent_empty,
    lemma_silent_line_end, lemma_silent_skip, lemma_silent_skip_all, silent,
    emit, frame, fresh, is_line_end, lemma_frame_empty_line, lemma_frame_found_line,
    lemma_frame_full_line, lemma_frame_incomplete, lemma_frame_skip, lemma_frame_skip_all,
    no_line_end, Framer, LINE_MAX,
};
use vstd::prelude::*;
use vstd::string::StringSliceAdditionalSpecFns;
use vstd::utf8::valid_utf8;

verus! {

/// Calls `std::str::from_utf8`: it succeeds exactly on valid UTF-8, and the `str` it
/// gives back holds the same bytes.
#[verifier::external_body]
fn str_from_utf8(bytes: &[u8]) -> (res: Option<&str>)
    ensures
        res is Some <==> valid_utf8(bytes@),
        res matches Some(s) ==> s.spec_bytes() == bytes@,
{
    std::str::from_utf8(bytes).ok()
}

/// Splits a byte stream into lines of at most `LINE_MAX` bytes, each handed out in a
/// pooled buffer.
pub struct LineCodec {
    pool: BufferPool,
    in_overflow: bool,
    buffer: [u8; 512],
    pos: usize,
}

/// Skipping the rest of an over-long line through the bytes `r`: whether the line end is
/// still to come, and the bytes after it.
pub open spec fn skip_line_rest(r: Seq<u8>) -> (bool, Seq<u8>)
    decreases r.len(),
{
    if r.len() == 0 {
        (true, r)
    } else if is_line_end(r[0]) {
        (false, r.drop_first())
    } else {
        skip_line_rest(r.drop_first())
    }
}

/// The overflow flag and the bytes left once the rest of an over-long line, if one is
/// being skipped, is skipped.
pub open spec fn after_skip(skipping: bool, r: Seq<u8>) -> (bool, Seq<u8>) {
    if skipping {
        skip_line_rest(r)
    } else {
        (false, r)
    }
}

/// How many of the bytes `r` fit after the `p` pending ones.
pub open spec fn fitting(p: Seq<u8>, r: Seq<u8>) -> int {
    if LINE_MAX - p.len() < r.len() {
        LINE_MAX - p.len()
    } else {
        r.len() as int
    }
}

/// The rest of an over-long line ends at its first line end.
proof fn lemma_skip_found(r: Seq<u8>, i: int)
    requires
        0 <= i < r.len(),
        no_line_end(r.take(i)),
        is_line_end(r[i]),
    ensures
        skip_line_rest(r) == (false, r.skip(i + 1)),
    decreases i,
{
    if i == 0 {
        assert(r.drop_first() =~= r.skip(1));
    } else {
        assert(!is_line_end(r.take(i)[0]));
        let t = r.drop_first();
        assert(no_line_end(t.take(i - 1))) by {
            assert forall|j: int| 0 <= j < i - 1 implies !is_line_end(#[trigger] t.take(i - 1)[j]) by {
                assert(t.take(i - 1)[j] == r.take(i)[j + 1]);
            }
        }
        lemma_skip_found(t, i - 1);
        assert(t.skip(i) =~= r.skip(i + 1));
    }
}

/// Without a line end, the whole of `r` is skipped.
proof fn lemma_skip_none(r: Seq<u8>)
    requires
        no_line_end(r),
    ensures
        skip_line_rest(r) == (true, Seq::<u8>::empty()),
    decreases r.len(),
{
    if r.len() == 0 {
        assert(r =~= Seq::<u8>::empty());
    } else {
        assert(!is_line_end(r[0]));
        let t = r.drop_first();
        assert(no_line_end(t)) by {
            assert forall|j: int| 0 <= j < t.len() implies !is_line_end(#[trigger] t[j]) by {
                assert(t[j] == r[j + 1]);
            }
        }
        lemma_skip_none(t);
    }
}

/// `after` is what is left of `before` once some bytes went from its front.
pub open spec fn suffix_of(after: Seq<u8>, before: Seq<u8>) -> bool {
    &&& after.len() <= before.len()
    &&& after == before.skip(before.len() - after.len())
}

/// The bytes that went from the front of `before`, leaving `after`.
pub open spec fn dropped(before: Seq<u8>, after: Seq<u8>) -> Seq<u8> {
    before.take(before.len() - after.len())
}

/// The bytes `d`, framed from a fresh start, end with `line` handed out: either it
/// filled `LINE_MAX` bytes and the rest of it is being skipped, or it is still being
/// collected and its line end stands at the front of `rest`.
pub open spec fn handed(from: bool, d: Seq<u8>, line: Seq<u8>, rest: Seq<u8>, to: bool) -> bool {
    if to {
        frame(fresh(from), d) == (fresh(true), seq![line])
    } else {
        &&& frame(fresh(from), d) == (Framer { cur: line, skipping: false }, Seq::<Seq<u8>>::empty())
        &&& 0 < line.len()
        &&& valid_utf8(line)
        &&& rest.len() > 0
        &&& is_line_end(rest[0])
    }
}

/// One take from the pool happened, with `ok` telling whether it gave a buffer.
pub open spec fn took(before: &LineCodec, after: &LineCodec, ok: bool) -> bool {
    exists|k: nat|
        k <= before.loaned_buffers() && #[trigger] take_outcome(
            before.free_buffers(),
            before.loaned_buffers(),
            before.max_buffers(),
            k,
            after.free_buffers(),
            after.loaned_buffers(),
            ok,
        )
}

impl LineCodec {
    /// Bytes received but not yet framed.
    pub closed spec fn pending(&self) -> Seq<u8> {
        self.buffer@.subrange(0, self.pos as int)
    }

    /// Whether the rest of an over-long line is being skipped.
    pub closed spec fn in_overflow(&self) -> bool {
        self.in_overflow
    }

    pub closed spec fn free_buffers(&self) -> nat {
        self.pool.free()
    }

    pub closed spec fn loaned_buffers(&self) -> nat {
        self.pool.loaned()
    }

    pub closed spec fn max_buffers(&self) -> nat {
        self.pool.count()
    }

    /// A buffer is there to be taken, whatever came back from the holders.
    pub open spec fn can_take(&self) -> bool {
        self.free_buffers() > 0 || self.loaned_buffers() < self.max_buffers()
    }

    /// The framer the codec stands for once its pending bytes are framed.
    pub open spec fn state(&self) -> Framer {
        frame(fresh(self.in_overflow()), self.pending()).0
    }

    pub closed spec fn wf(&self) -> bool {
        &&& self.pos <= LINE_MAX
        &&& self.in_overflow ==> self.pos == 0
        &&& self.pool.wf()
        &&& self.pool.buffer_size() == LINE_MAX
    }

    pub fn new(capacity: usize) -> (res: LineCodec)
        ensures
            res.wf(),
            res.pending() == Seq::<u8>::empty(),
            !res.in_overflow(),
            res.max_buffers() == capacity,
            res.free_buffers() == 0,
            res.loaned_buffers() == 0,
    {
        let res = LineCodec {
            pool: BufferPool::new(LINE_MAX, capacity),
            in_overflow: false,
            buffer: [0u8; 512],
            pos: 0,
        };
        assert(res.pending() =~= Seq::<u8>::empty());
        res
    }

    /// Starts framing `bytes` after what is already pending.
    pub fn add_bytes<'a>(&'a mut self, bytes: &'a [u8]) -> (res: AddBytesIter<'a>)
        requires
            old(self).wf(),
            bytes@.len() > 0,
        ensures
            *res.codec == *old(self),
            res.buffer@ == bytes@,
            *final(self) == *final(res.codec),
    {
        AddBytesIter { codec: self, buffer: bytes }
    }

    /// Frames what is already pending, with no new bytes.
    pub fn lines<'a>(&'a mut self) -> (res: AddBytesIter<'a>)
        requires
            old(self).wf(),
        ensures
            *res.codec == *old(self),
            res.buffer@ == Seq::<u8>::empty(),
            *final(self) == *final(res.codec),
    {
        let empty: &'a [u8] = &[];
        AddBytesIter { codec: self, buffer: empty }
    }

    /// Drops the first `n` pending bytes.
    fn shift(&mut self, n: usize)
        requires
            old(self).wf(),
            0 < n <= old(self).pos,
        ensures
            final(self).wf(),
            final(self).pending() == old(self).pending().subrange(n as int, old(self).pos as int),
            final(self).in_overflow == old(self).in_overflow,
            final(self).pool == old(self).pool,
    {
        let end = self.pos - n;
        let mut i: usize = 0;
        while i < end
            invariant
                0 <= i <= end,
                end == old(self).pos - n,
                0 < n <= old(self).pos <= LINE_MAX,
                self.pos == old(self).pos,
                self.in_overflow == old(self).in_overflow,
                self.pool == old(self).pool,
                forall|k: int| 0 <= k < i ==> self.buffer@[k] == old(self).buffer@[k + n],
                forall|k: int| i <= k < LINE_MAX ==> self.buffer@[k] == old(self).buffer@[k],
            decreases end - i,
        {
            let b = self.buffer[i + n];
            self.buffer[i] = b;
            i = i + 1;
        }
        self.pos = end;
        assert(self.pending() =~= old(self).pending().subrange(n as int, old(self).pos as int));
    }

    pub fn is_empty(&self) -> (res: bool)
        requires
            self.wf(),
        ensures
            res == (self.pending().len() == 0),
    {
        self.pos == 0
    }
}

/// The lines to be had from a codec and the bytes added to it.
pub struct AddBytesIter<'a> {
    pub codec: &'a mut LineCodec,
    pub buffer: &'a [u8],
}

enum AdvanceBufferResult {
    BufferEmpty,
    BufferNotEmpty,
    InOverflow,
}

/// Dropping from the front twice is dropping once; silent pieces stay silent together.
pub(crate) proof fn lemma_drop_more(s0: Seq<u8>, s1: Seq<u8>, s2: Seq<u8>, a: bool, b: bool, c: bool)
    requires
        suffix_of(s1, s0),
        suffix_of(s2, s1),
    ensures
        suffix_of(s2, s0),
        dropped(s0, s2) == dropped(s0, s1) + dropped(s1, s2),
        silent(a, dropped(s0, s1), b) && silent(b, dropped(s1, s2), c) ==> silent(
            a,
            dropped(s0, s2),
            c,
        ),
{
    assert(s2 =~= s0.skip(s0.len() - s2.len()));
    assert(dropped(s0, s2) =~= dropped(s0, s1) + dropped(s1, s2));
    if silent(a, dropped(s0, s1), b) && silent(b, dropped(s1, s2), c) {
        lemma_silent_concat(a, dropped(s0, s1), b, dropped(s1, s2), c);
    }
}

/// A silent stretch followed by a line that was handed out.
proof fn lemma_handed(from: bool, pre: Seq<u8>, line: Seq<u8>, rest: Seq<u8>, found: bool)
    requires
        silent(from, pre, false),
        no_line_end(line),
        valid_utf8(line),
        found ==> 0 < line.len() < LINE_MAX && rest.len() > 0 && is_line_end(rest[0]),
        !found ==> line.len() == LINE_MAX,
    ensures
        handed(from, pre + line, line, rest, !found),
{
    lemma_frame_concat(fresh(from), pre, line);
    assert(Seq::<Seq<u8>>::empty() + frame(fresh(false), line).1 =~= frame(fresh(false), line).1);
    if found {
        lemma_frame_collect(Seq::empty(), line);
        assert(Seq::<u8>::empty() + line =~= line);
    } else {
        lemma_frame_full(line);
    }
}

/// How the input is split between calls of `add_bytes` does not change the lines: once
/// the lines of `p0 + x` are all handed out, with the codec left holding `p1` and its
/// overflow flag `ovf1` at the framer's end state, the lines of `p1 + y` are the lines
/// that framing `p0 + x + y` at once gives after those of `p0 + x`. `next` states the
/// premise where it gives `None` with every added byte taken in, and `finish` then keeps
/// the codec as it is.
pub proof fn lemma_lines_split(o0: bool, p0: Seq<u8>, x: Seq<u8>, ovf1: bool, p1: Seq<u8>, y: Seq<u8>)
    requires
        frame(fresh(ovf1), p1) == (frame(fresh(o0), p0 + x).0, Seq::<Seq<u8>>::empty()),
    ensures
        frame(fresh(o0), p0 + x + y).1 == frame(fresh(o0), p0 + x).1 + frame(fresh(ovf1), p1 + y).1,
{
    lemma_frame_concat(fresh(o0), p0 + x, y);
    lemma_frame_concat(fresh(ovf1), p1, y);
    assert(Seq::<Seq<u8>>::empty() + frame(frame(fresh(ovf1), p1).0, y).1 =~= frame(
        frame(fresh(ovf1), p1).0,
        y,
    ).1);
}

impl<'a> AddBytesIter<'a> {
    /// Pending bytes followed by the bytes not yet taken in.
    pub open spec fn stream(&self) -> Seq<u8> {
        self.codec.pending() + self.buffer@
    }

    /// The lines still to come, in order.
    pub open spec fn lines(&self) -> Seq<Seq<u8>> {
        frame(fresh(self.codec.in_overflow()), self.stream()).1
    }

    /// Where the framer stands once everything is framed.
    pub open spec fn end(&self) -> Framer {
        frame(fresh(self.codec.in_overflow()), self.stream()).0
    }

    /// Takes in as many new bytes as the pending buffer holds, first skipping the rest of
    /// an over-long line.
    #[verifier::rlimit(60)]
    #[verifier::spinoff_prover]
    fn advance_buffer(&mut self) -> (res: AdvanceBufferResult)
        requires
            old(self).codec.wf(),
        ensures
            final(self).codec.wf(),
            final(self).lines() == old(self).lines(),
            final(self).end() == old(self).end(),
            final(self).codec.pool == old(self).codec.pool,
            *final(final(self).codec) == *final(old(self).codec),
            res is InOverflow ==> final(self).buffer@.len() == 0
                && final(self).codec.in_overflow,
            !(res is InOverflow) ==> final(self).buffer@.len() == 0 || (final(self).codec.pos
                == LINE_MAX && !final(self).codec.in_overflow),
            res is BufferNotEmpty <==> final(self).buffer@.len() > 0,
            ({
                let (o1, r1) = after_skip(old(self).codec.in_overflow(), old(self).buffer@);
                let k = fitting(old(self).codec.pending(), r1);
                &&& final(self).codec.in_overflow() == o1
                &&& final(self).codec.pending() == old(self).codec.pending() + r1.take(k)
                &&& final(self).buffer@ == r1.skip(k)
                &&& res is InOverflow <==> old(self).buffer@.len() > 0 && o1
            }),
            final(self).stream().len() <= old(self).stream().len(),
            suffix_of(final(self).stream(), old(self).stream()),
            silent(
                old(self).codec.in_overflow(),
                dropped(old(self).stream(), final(self).stream()),
                final(self).codec.in_overflow(),
            ),
    {
        let ghost st0 = fresh(self.codec.in_overflow);
        let ghost s0 = self.stream();
        let ghost o0 = self.codec.in_overflow;
        proof {
            assert(s0.skip(0) =~= s0);
            assert(dropped(s0, s0) =~= Seq::<u8>::empty());
            lemma_silent_empty(o0);
        }
        if self.buffer.len() > 0 && self.codec.in_overflow {
            let input: &'a [u8] = self.buffer;
            let len = input.len();
            let mut idx: usize = 0;
            let mut found = false;
            while idx < len
                invariant_except_break
                    0 <= idx <= len,
                    len == input@.len(),
                    *final(self.codec) == *final(old(self).codec),
                    no_line_end(input@.subrange(0, idx as int)),
                    !found,
                ensures
                    0 <= idx <= len,
                    *final(self.codec) == *final(old(self).codec),
                    no_line_end(input@.subrange(0, idx as int)),
                    found ==> idx < len && is_line_end(input@[idx as int]),
                    !found ==> idx == len,
                decreases len - idx,
            {
                let ch = input[idx];
                if ch == 13 || ch == 10 {
                    found = true;
                    break ;
                }
                proof {
                    assert forall|k: int| 0 <= k < idx + 1 implies !is_line_end(
                        #[trigger] input@.subrange(0, idx + 1)[k],
                    ) by {
                        if k < idx {
                            assert(input@.subrange(0, idx + 1)[k] == input@.subrange(
                                0,
                                idx as int,
                            )[k]);
                        }
                    }
                }
                idx = idx + 1;
            }
            assert(self.codec.pending() =~= Seq::<u8>::empty());
            assert(s0 =~= input@);
            if found {
                proof {
                    let d = input@.subrange(0, idx as int);
                    let rest = input@.subrange(idx + 1, len as int);
                    assert(input@ =~= d + (seq![input@[idx as int]] + rest));
                    lemma_frame_skip(d, input@[idx as int], rest);
                    assert(input@.take(idx as int) =~= d);
                    lemma_skip_found(input@, idx as int);
                }
                self.codec.in_overflow = false;
                self.buffer = &input[idx + 1..len];
                assert(self.stream() =~= input@.subrange(idx + 1, len as int));
                proof {
                    let d = input@.subrange(0, idx as int);
                    lemma_silent_skip(d, input@[idx as int]);
                    assert(dropped(s0, self.stream()) =~= d.push(input@[idx as int]));
                    assert(self.stream() =~= s0.skip(s0.len() - self.stream().len()));
                }
            } else {
                proof {
                    assert(input@.subrange(0, idx as int) =~= input@);
                    lemma_frame_skip_all(input@);
                    lemma_skip_none(input@);
                }
                self.buffer = &input[len..len];
                assert(self.stream() =~= Seq::<u8>::empty());
                proof {
                    lemma_silent_skip_all(input@);
                    assert(dropped(s0, self.stream()) =~= input@);
                    assert(self.stream() =~= s0.skip(s0.len() - self.stream().len()));
                }
                return AdvanceBufferResult::InOverflow;
            }
        }
        let ghost s_mid = self.stream();
        let ghost r1 = after_skip(o0, old(self).buffer@).1;
        proof {
            if old(self).buffer@.len() == 0 {
                assert(old(self).buffer@ =~= Seq::<u8>::empty());
            }
            assert(self.codec.in_overflow == after_skip(o0, old(self).buffer@).0);
            assert(self.buffer@ == r1);
            assert(self.codec.pending() == old(self).codec.pending());
        }
        assert(suffix_of(s_mid, s0));
        assert(silent(o0, dropped(s0, s_mid), self.codec.in_overflow));
        if self.buffer.len() > 0 {
            let input: &'a [u8] = self.buffer;
            let pos = self.codec.pos;
            let room = LINE_MAX - pos;
            let n = if room < input.len() {
                room
            } else {
                input.len()
            };
            let ghost before = self.codec.buffer@;
            let ghost pend0 = self.codec.pending();
            let ghost s1 = self.stream();
            let mut i: usize = 0;
            while i < n
                invariant
                    0 <= i <= n,
                    n <= input@.len(),
                    pos + n <= LINE_MAX,
                    pos == self.codec.pos,
                    self.codec.wf(),
                    !self.codec.in_overflow,
                    self.codec.pool == old(self).codec.pool,
                    self.buffer == input,
                    *final(self.codec) == *final(old(self).codec),
                    before.len() == LINE_MAX,
                    self.codec.buffer@.len() == LINE_MAX,
                    forall|k: int| 0 <= k < pos ==> self.codec.buffer@[k] == before[k],
                    forall|k: int| 0 <= k < i ==> self.codec.buffer@[pos + k] == input@[k],
                decreases n - i,
            {
                let b = input[i];
                self.codec.buffer[pos + i] = b;
                i = i + 1;
            }
            self.codec.pos = pos + n;
            self.buffer = &input[n..input.len()];
            assert(self.codec.pending() =~= pend0 + input@.subrange(0, n as int));
            assert(self.stream() =~= s1);
            assert(input@.subrange(0, n as int) =~= r1.take(n as int));
            assert(self.buffer@ =~= r1.skip(n as int));
        } else {
            assert(r1.take(0) =~= Seq::<u8>::empty());
            assert(self.codec.pending() =~= old(self).codec.pending() + r1.take(0));
            assert(r1.skip(0) =~= r1);
        }
        if self.buffer.len() > 0 {
            AdvanceBufferResult::BufferNotEmpty
        } else {
            AdvanceBufferResult::BufferEmpty
        }
    }

    /// Hands out the next line. `Err` comes when a line is ready but the pool has no
    /// buffer for it; the line then stays pending.
    #[verifier::rlimit(60)]
    #[verifier::spinoff_prover]
    pub fn try_next(&mut self) -> (res: Result<Option<Buffer>, BufferError>)
        requires
            old(self).codec.wf(),
        ensures
            final(self).codec.wf(),
            final(self).stream().len() <= old(self).stream().len(),
            suffix_of(final(self).stream(), old(self).stream()),
            old(self).stream().len() <= LINE_MAX ==> final(self).buffer@.len() == 0,
            final(self).end() == old(self).end(),
            *final(final(self).codec) == *final(old(self).codec),
            final(self).codec.max_buffers() == old(self).codec.max_buffers(),
            match res {
                Ok(Some(buf)) => {
                    &&& old(self).lines() == seq![buf.bytes()] + final(self).lines()
                    &&& buf.limit() == LINE_MAX
                    &&& took(old(self).codec, final(self).codec, true)
                    &&& handed(
                        old(self).codec.in_overflow(),
                        dropped(old(self).stream(), final(self).stream()),
                        buf.bytes(),
                        final(self).stream(),
                        final(self).codec.in_overflow(),
                    )
                },
                Ok(None) => {
                    &&& final(self).lines() == old(self).lines()
                    &&& final(self).codec.free_buffers() == old(self).codec.free_buffers()
                    &&& final(self).codec.loaned_buffers() == old(self).codec.loaned_buffers()
                    &&& no_line_end(final(self).codec.pending())
                    &&& final(self).codec.pending().len() < LINE_MAX
                    &&& final(self).buffer@.len() == 0 ==> final(self).lines().len() == 0
                    &&& final(self).buffer@.len() > 0 ==> old(self).stream().len()
                        - final(self).buffer@.len() >= LINE_MAX
                    &&& silent(
                        old(self).codec.in_overflow(),
                        dropped(old(self).stream(), final(self).stream()),
                        final(self).codec.in_overflow(),
                    )
                },
                Err(_) => {
                    &&& final(self).lines() == old(self).lines()
                    &&& took(old(self).codec, final(self).codec, false)
                    &&& silent(
                        old(self).codec.in_overflow(),
                        dropped(old(self).stream(), final(self).stream()),
                        final(self).codec.in_overflow(),
                    )
                },
            },
    {
        match self.advance_buffer() {
            AdvanceBufferResult::InOverflow => {
                proof {
                    assert(self.codec.pending() =~= Seq::<u8>::empty());
                    assert(self.stream() =~= Seq::<u8>::empty());
                }
                return Ok(None);
            },
            _ => {},
        }
        loop
            invariant
                self.codec.wf(),
                self.lines() == old(self).lines(),
                self.end() == old(self).end(),
                self.codec.pool == old(self).codec.pool,
                *final(self.codec) == *final(old(self).codec),
                self.stream().len() <= old(self).stream().len(),
                old(self).stream().len() <= LINE_MAX ==> self.buffer@.len() == 0,
                suffix_of(self.stream(), old(self).stream()),
                silent(
                    old(self).codec.in_overflow(),
                    dropped(old(self).stream(), self.stream()),
                    self.codec.in_overflow(),
                ),
                self.buffer@.len() > 0 ==> old(self).stream().len() - self.buffer@.len()
                    >= LINE_MAX,
            decreases self.codec.pos,
        {
            let pos = self.codec.pos;
            let ghost pending = self.codec.pending();
            let ghost input = self.buffer@;
            let mut idx: usize = 0;
            let mut found = false;
            while idx < pos
                invariant_except_break
                    0 <= idx <= pos,
                    pos == self.codec.pos,
                    pending == self.codec.pending(),
                    pos <= LINE_MAX,
                    self.codec.buffer@.len() == LINE_MAX,
                    no_line_end(pending.subrange(0, idx as int)),
                    !found,
                ensures
                    0 <= idx <= pos,
                    no_line_end(pending.subrange(0, idx as int)),
                    found ==> idx < pos && is_line_end(pending[idx as int]),
                    !found ==> idx == pos,
                decreases pos - idx,
            {
                let ch = self.codec.buffer[idx];
                assert(pending[idx as int] == ch);
                if ch == 13 || ch == 10 {
                    found = true;
                    break ;
                }
                proof {
                    assert forall|k: int| 0 <= k < idx + 1 implies !is_line_end(
                        #[trigger] pending.subrange(0, idx + 1)[k],
                    ) by {
                        if k < idx {
                            assert(pending.subrange(0, idx + 1)[k] == pending.subrange(
                                0,
                                idx as int,
                            )[k]);
                        }
                    }
                }
                idx = idx + 1;
            }
            if found && idx == 0 {
                // An empty line: drop its line end and look again.
                proof {
                    assert(self.stream() =~= pending + input);
                    lemma_frame_empty_line(pending, input);
                }
                let ghost s_before = pending + input;
                self.codec.shift(1);
                assert(self.stream() =~= pending.subrange(1, pos as int) + input);
                proof {
                    assert(s_before.skip(1) =~= self.stream());
                    assert(dropped(s_before, self.stream()) =~= seq![pending[0]]);
                    lemma_silent_line_end(pending[0]);
                    lemma_drop_more(
                        old(self).stream(),
                        s_before,
                        self.stream(),
                        old(self).codec.in_overflow(),
                        false,
                        false,
                    );
                }
                continue ;
            }
            let len = if found {
                idx
            } else if pos == LINE_MAX {
                pos
            } else {
                proof {
                    assert(pending.subrange(0, idx as int) =~= pending);
                    if input.len() == 0 {
                        assert(self.stream() =~= pending);
                        lemma_frame_incomplete(self.codec.in_overflow, pending);
                    }
                }
                return Ok(None);
            };
            let ghost line = pending.subrange(0, len as int);
            let ghost after_stream = if found {
                pending.subrange(len as int, pos as int) + input
            } else {
                input
            };
            let ghost after_start = fresh(!found);
            proof {
                assert(self.stream() =~= pending + input);
                assert(!self.codec.in_overflow);
                if found {
                    lemma_frame_found_line(pending, input, len as int);
                } else {
                    assert(line =~= pending);
                    assert(pending.subrange(0, idx as int) =~= pending);
                    lemma_frame_full_line(pending, input);
                }
            }
            assert(frame(fresh(false), self.stream()) == (
                frame(after_start, after_stream).0,
                emit(line) + frame(after_start, after_stream).1,
            ));
            let line_bytes = &self.codec.buffer.as_slice()[0..len];
            assert(line_bytes@ =~= line);
            match str_from_utf8(line_bytes) {
                Some(line_str) => {
                    let ghost pool0 = self.codec.pool;
                    let ghost codec0 = *self.codec;
                    let taken = self.codec.pool.take();
                    let ghost k = choose|k: nat|
                        k <= pool0.loaned() && #[trigger] take_outcome(
                            pool0.free(),
                            pool0.loaned(),
                            pool0.count(),
                            k,
                            self.codec.pool.free(),
                            self.codec.pool.loaned(),
                            taken is Ok,
                        );
                    proof {
                        assert(take_outcome(
                            old(self).codec.free_buffers(),
                            old(self).codec.loaned_buffers(),
                            old(self).codec.max_buffers(),
                            k,
                            self.codec.free_buffers(),
                            self.codec.loaned_buffers(),
                            taken is Ok,
                        ));
                    }
                    match taken {
                        Ok(buf) => {
                            let mut buf = buf;
                            let _ = buf.append(line_str);
                            self.codec.shift(len);
                            if !found {
                                self.codec.in_overflow = true;
                            }
                            proof {
                                assert(line_str.spec_bytes() == line);
                                assert(buf.bytes() == line);
                                assert(self.codec.pending() =~= pending.subrange(
                                    len as int,
                                    pos as int,
                                ));
                                assert(self.stream() =~= pending.subrange(len as int, pos as int)
                                    + input);
                                if !found {
                                    assert(pending.subrange(len as int, pos as int)
                                        =~= Seq::<u8>::empty());
                                    assert(self.stream() =~= input);
                                }
                                assert(self.stream() == after_stream);
                                assert((pending + input).skip(len as int) =~= self.stream());
                                lemma_drop_more(
                                    old(self).stream(),
                                    pending + input,
                                    self.stream(),
                                    false,
                                    false,
                                    false,
                                );
                                assert(emit(line) == seq![line]);
                                assert(dropped(pending + input, self.stream()) =~= line);
                                assert(found ==> self.stream()[0] == pending[len as int]);
                                lemma_handed(
                                    old(self).codec.in_overflow(),
                                    dropped(old(self).stream(), pending + input),
                                    line,
                                    self.stream(),
                                    found,
                                );
                                assert(old(self).lines() == seq![buf.bytes()] + self.lines());
                                assert(buf.limit() == LINE_MAX);
                                assert(take_outcome(
                                    old(self).codec.free_buffers(),
                                    old(self).codec.loaned_buffers(),
                                    old(self).codec.max_buffers(),
                                    k,
                                    self.codec.free_buffers(),
                                    self.codec.loaned_buffers(),
                                    true,
                                ));
                            }
                            return Ok(Some(buf));
                        },
                        Err(e) => {
                            return Err(e);
                        },
                    }
                },
                None => {
                    let ghost s_before = pending + input;
                    self.codec.shift(len);
                    proof {
                        assert(emit(line) =~= Seq::<Seq<u8>>::empty());
                        assert(self.codec.pending() =~= pending.subrange(len as int, pos as int));
                        assert(self.stream() =~= pending.subrange(len as int, pos as int) + input);
                        if !found {
                            assert(pending.subrange(len as int, pos as int) =~= Seq::<u8>::empty());
                            assert(self.stream() =~= input);
                        }
                        assert(self.stream() == after_stream);
                        assert(emit(line) + frame(after_start, after_stream).1 =~= frame(
                            after_start,
                            after_stream,
                        ).1);
                    }
                    if found {
                        // The line end of the dropped line goes with it.
                        let ghost rest_p = pending.subrange(len as int, pos as int);
                        self.codec.shift(1);
                        proof {
                            assert(rest_p[0] == pending[len as int]);
                            lemma_frame_empty_line(rest_p, input);
                            assert(self.codec.pending() =~= rest_p.subrange(1, rest_p.len() as int));
                            assert(self.stream() =~= rest_p.subrange(1, rest_p.len() as int)
                                + input);
                            lemma_silent_bad_line(line, pending[len as int]);
                            assert(dropped(s_before, self.stream()) =~= line.push(
                                pending[len as int],
                            ));
                            assert(s_before.skip(len + 1) =~= self.stream());
                            lemma_drop_more(
                                old(self).stream(),
                                s_before,
                                self.stream(),
                                old(self).codec.in_overflow(),
                                false,
                                false,
                            );
                        }
                    } else {
                        self.codec.in_overflow = true;
                        proof {
                            lemma_silent_bad_full(line);
                            assert(dropped(s_before, self.stream()) =~= line);
                            assert(s_before.skip(len as int) =~= self.stream());
                            lemma_drop_more(
                                old(self).stream(),
                                s_before,
                                self.stream(),
                                old(self).codec.in_overflow(),
                                false,
                                true,
                            );
                        }
                    }
                },
            }
        }
    }

    /// Hands out the next line, or `None` when no complete line is pending. A buffer
    /// must be there to be taken, whatever came back from the holders.
    pub fn next(&mut self) -> (res: Option<Buffer>)
        requires
            old(self).codec.wf(),
            old(self).codec.can_take(),
        ensures
            final(self).codec.wf(),
            final(self).end() == old(self).end(),
            suffix_of(final(self).stream(), old(self).stream()),
            old(self).stream().len() <= LINE_MAX ==> final(self).buffer@.len() == 0,
            *final(final(self).codec) == *final(old(self).codec),
            final(self).codec.max_buffers() == old(self).codec.max_buffers(),
            res is None && old(self).stream().len() <= LINE_MAX ==> old(self).lines().len() == 0,
            match res {
                Some(buf) => {
                    &&& old(self).lines() == seq![buf.bytes()] + final(self).lines()
                    &&& buf.limit() == LINE_MAX
                    &&& took(old(self).codec, final(self).codec, true)
                    &&& handed(
                        old(self).codec.in_overflow(),
                        dropped(old(self).stream(), final(self).stream()),
                        buf.bytes(),
                        final(self).stream(),
                        final(self).codec.in_overflow(),
                    )
                },
                None => {
                    &&& final(self).lines() == old(self).lines()
                    &&& final(self).codec.free_buffers() == old(self).codec.free_buffers()
                    &&& final(self).codec.loaned_buffers() == old(self).codec.loaned_buffers()
                    &&& no_line_end(final(self).codec.pending())
                    &&& final(self).codec.pending().len() < LINE_MAX
                    &&& final(self).buffer@.len() == 0 ==> final(self).lines().len() == 0
                    &&& final(self).buffer@.len() == 0 ==> frame(
                        fresh(final(self).codec.in_overflow()),
                        final(self).codec.pending(),
                    ) == (old(self).end(), Seq::<Seq<u8>>::empty())
                    &&& final(self).buffer@.len() == 0 ==> final(self).codec.pending()
                        == old(self).end().cur && final(self).codec.in_overflow()
                        == old(self).end().skipping
                    &&& final(self).buffer@.len() > 0 ==> old(self).stream().len()
                        - final(self).buffer@.len() >= LINE_MAX
                    &&& silent(
                        old(self).codec.in_overflow(),
                        dropped(old(self).stream(), final(self).stream()),
                        final(self).codec.in_overflow(),
                    )
                },
            },
    {
        match self.try_next() {
            Ok(res) => {
                proof {
                    if res is None && self.buffer@.len() == 0 {
                        assert(self.stream() =~= self.codec.pending());
                        assert(self.lines() =~= Seq::<Seq<u8>>::empty());
                        if self.codec.in_overflow {
                            assert(self.codec.pending() =~= Seq::<u8>::empty());
                        } else {
                            lemma_frame_collect(Seq::empty(), self.codec.pending());
                            assert(Seq::<u8>::empty() + self.codec.pending() =~= self.codec.pending());
                        }
                    }
                }
                res
            },
            Err(_) => {
                proof {
                    let k = choose|k: nat|
                        k <= old(self).codec.loaned_buffers() && #[trigger] take_outcome(
                            old(self).codec.free_buffers(),
                            old(self).codec.loaned_buffers(),
                            old(self).codec.max_buffers(),
                            k,
                            self.codec.free_buffers(),
                            self.codec.loaned_buffers(),
                            false,
                        );
                    assert(false);
                }
                None
            },
        }
    }

    /// Takes in what is left of the added bytes, as far as they fit, and ends the
    /// iteration. `Err` says that bytes were left over because the pending buffer was
    /// full: those bytes are lost, and the codec keeps the ones that fit.
    pub fn finish(self) -> (res: Result<(), ()>)
        requires
            old(self.codec).wf(),
        ensures
            final(self.codec).wf(),
            final(self.codec).free_buffers() == old(self.codec).free_buffers(),
            final(self.codec).loaned_buffers() == old(self.codec).loaned_buffers(),
            final(self.codec).max_buffers() == old(self.codec).max_buffers(),
            res is Ok ==> frame(fresh(final(self.codec).in_overflow()), final(self.codec).pending())
                == frame(fresh(old(self.codec).in_overflow()), old(self.codec).pending() + self.buffer@),
            res is Err ==> final(self.codec).pending().len() == LINE_MAX
                && !final(self.codec).in_overflow(),
            old(self.codec).pending().len() + self.buffer@.len() <= LINE_MAX ==> res is Ok,
            self.buffer@.len() == 0 ==> *final(self.codec) == *old(self.codec),
            ({
                let (o1, r1) = after_skip(old(self.codec).in_overflow(), self.buffer@);
                let k = fitting(old(self.codec).pending(), r1);
                &&& final(self.codec).in_overflow() == o1
                &&& final(self.codec).pending() == old(self.codec).pending() + r1.take(k)
                &&& res is Err <==> r1.len() > k
            }),
    {
        let mut it = self;
        if it.buffer.len() == 0 {
            assert(it.stream() =~= it.codec.pending());
            assert(it.buffer@ =~= Seq::<u8>::empty());
            assert(it.codec.pending() + Seq::<u8>::empty().take(0) =~= it.codec.pending());
            return Ok(());
        }
        match it.advance_buffer() {
            AdvanceBufferResult::BufferNotEmpty => Err(()),
            _ => {
                assert(it.stream() =~= it.codec.pending());
                Ok(())
            },
        }
    }
}

} // verus!
