use vstd::prelude::*;
use vstd::utf8::valid_utf8;

verus! {

/// The longest line, in bytes, that the codec hands out.
pub const LINE_MAX: usize = 512;

/// Carriage return and line feed both end a line.
pub open spec fn is_line_end(b: u8) -> bool {
    b == 13 || b == 10
}

pub open spec fn no_line_end(s: Seq<u8>) -> bool {
    forall|i: int| 0 <= i < s.len() ==> !is_line_end(#[trigger] s[i])
}

/// Where the line framer stands between two bytes: the bytes of the line being
/// collected, and whether the rest of an over-long line is being skipped.
pub struct Framer {
    pub cur: Seq<u8>,
    pub skipping: bool,
}

pub open spec fn fresh(skipping: bool) -> Framer {
    Framer { cur: Seq::empty(), skipping }
}

/// A finished line is handed out when it is valid UTF-8, and dropped otherwise.
pub open spec fn emit(line: Seq<u8>) -> Seq<Seq<u8>> {
    if valid_utf8(line) {
        seq![line]
    } else {
        Seq::empty()
    }
}

/// One byte of input: line ends finish a non-empty line, empty lines are skipped, and a
/// line that reaches `LINE_MAX` bytes is finished there while the rest of it, up to
/// and including its line end, is skipped.
pub open spec fn feed(st: Framer, b: u8) -> (Framer, Seq<Seq<u8>>) {
    if st.skipping {
        if is_line_end(b) {
            (fresh(false), Seq::empty())
        } else {
            (st, Seq::empty())
        }
    } else if is_line_end(b) {
        if st.cur.len() == 0 {
            (st, Seq::empty())
        } else {
            (fresh(false), emit(st.cur))
        }
    } else if st.cur.len() + 1 >= LINE_MAX {
        (fresh(true), emit(st.cur.push(b)))
    } else {
        (Framer { cur: st.cur.push(b), skipping: false }, Seq::empty())
    }
}

/// The state after a byte stream, and the lines it produced, in order.
pub open spec fn frame(st: Framer, bytes: Seq<u8>) -> (Framer, Seq<Seq<u8>>)
    decreases bytes.len(),
{
    if bytes.len() == 0 {
        (st, Seq::empty())
    } else {
        let (s1, o1) = feed(st, bytes[0]);
        let (s2, o2) = frame(s1, bytes.drop_first());
        (s2, o1 + o2)
    }
}

/// Framing a stream in two pieces gives what framing it whole gives: the lines do not
/// depend on how the bytes were split into chunks.
pub proof fn lemma_frame_concat(st: Framer, a: Seq<u8>, b: Seq<u8>)
    ensures
        frame(st, a + b) == (
            frame(frame(st, a).0, b).0,
            frame(st, a).1 + frame(frame(st, a).0, b).1,
        ),
    decreases a.len(),
{
    if a.len() == 0 {
        assert(a + b =~= b);
        assert(frame(st, a).1 + frame(frame(st, a).0, b).1 =~= frame(st, b).1);
    } else {
        let (s1, o1) = feed(st, a[0]);
        lemma_frame_concat(s1, a.drop_first(), b);
        assert((a + b).drop_first() =~= a.drop_first() + b);
        assert((a + b)[0] == a[0]);
        let r = frame(s1, a.drop_first());
        assert(o1 + (r.1 + frame(r.0, b).1) =~= (o1 + r.1) + frame(r.0, b).1);
    }
}

/// Bytes with no line end, while the line stays short, just extend the current line.
pub proof fn lemma_frame_collect(cur: Seq<u8>, chunk: Seq<u8>)
    requires
        no_line_end(chunk),
        cur.len() + chunk.len() < LINE_MAX,
    ensures
        frame(Framer { cur, skipping: false }, chunk) == (
            Framer { cur: cur + chunk, skipping: false },
            Seq::<Seq<u8>>::empty(),
        ),
    decreases chunk.len(),
{
    if chunk.len() == 0 {
        assert(cur + chunk =~= cur);
    } else {
        assert(!is_line_end(chunk[0]));
        let rest = chunk.drop_first();
        assert(no_line_end(rest)) by {
            assert forall|i: int| 0 <= i < rest.len() implies !is_line_end(#[trigger] rest[i]) by {
                assert(rest[i] == chunk[i + 1]);
            }
        }
        lemma_frame_collect(cur.push(chunk[0]), rest);
        assert(cur.push(chunk[0]) + rest =~= cur + chunk);
        assert(Seq::<Seq<u8>>::empty() + Seq::<Seq<u8>>::empty() =~= Seq::<Seq<u8>>::empty());
    }
}

/// A full `LINE_MAX` bytes with no line end finish a line and start skipping.
pub proof fn lemma_frame_full(line: Seq<u8>)
    requires
        no_line_end(line),
        line.len() == LINE_MAX,
    ensures
        frame(fresh(false), line) == (fresh(true), emit(line)),
{
    let head = line.subrange(0, LINE_MAX - 1);
    let last = line.subrange(LINE_MAX - 1, LINE_MAX as int);
    assert(line =~= head + last);
    assert(no_line_end(head)) by {
        assert forall|i: int| 0 <= i < head.len() implies !is_line_end(#[trigger] head[i]) by {
            assert(head[i] == line[i]);
        }
    }
    lemma_frame_collect(Seq::empty(), head);
    assert(Seq::<u8>::empty() + head =~= head);
    lemma_frame_concat(fresh(false), head, last);
    assert(!is_line_end(last[0])) by {
        assert(last[0] == line[LINE_MAX - 1]);
    }
    assert(head.push(last[0]) =~= line);
    assert(last.drop_first() =~= Seq::<u8>::empty());
    let hs = Framer { cur: head, skipping: false };
    assert(feed(hs, last[0]) == (fresh(true), emit(line)));
    assert(frame(fresh(true), last.drop_first()) == (fresh(true), Seq::<Seq<u8>>::empty()));
    assert(frame(hs, last) == (fresh(true), emit(line) + Seq::<Seq<u8>>::empty()));
    assert(emit(line) + Seq::<Seq<u8>>::empty() =~= emit(line));
    assert(Seq::<Seq<u8>>::empty() + (emit(line) + Seq::<Seq<u8>>::empty()) =~= emit(line));
}

/// Line ends close the current line; an empty current line produces nothing.
pub proof fn lemma_frame_line_end(cur: Seq<u8>, t: u8, rest: Seq<u8>)
    requires
        is_line_end(t),
    ensures
        frame(Framer { cur, skipping: false }, seq![t] + rest).1 == (if cur.len() == 0 {
            Seq::empty()
        } else {
            emit(cur)
        }) + frame(fresh(false), rest).1,
        frame(Framer { cur, skipping: false }, seq![t] + rest).0 == frame(fresh(false), rest).0,
{
    let s = seq![t] + rest;
    assert(s[0] == t);
    assert(s.drop_first() =~= rest);
    if cur.len() == 0 {
        assert(cur =~= Seq::<u8>::empty());
        assert(Framer { cur, skipping: false } == fresh(false));
        assert(Seq::<Seq<u8>>::empty() + frame(fresh(false), rest).1 =~= frame(
            fresh(false),
            rest,
        ).1);
    }
}

/// While skipping, bytes up to the first line end are dropped and the line end with
/// them.
pub proof fn lemma_frame_skip(d: Seq<u8>, t: u8, rest: Seq<u8>)
    requires
        no_line_end(d),
        is_line_end(t),
    ensures
        frame(fresh(true), d + (seq![t] + rest)) == frame(fresh(false), rest),
    decreases d.len(),
{
    if d.len() == 0 {
        assert(d + (seq![t] + rest) =~= seq![t] + rest);
        let s = seq![t] + rest;
        assert(s[0] == t);
        assert(s.drop_first() =~= rest);
        assert(Seq::<Seq<u8>>::empty() + frame(fresh(false), rest).1 =~= frame(
            fresh(false),
            rest,
        ).1);
    } else {
        let s = d + (seq![t] + rest);
        assert(s[0] == d[0]);
        assert(!is_line_end(d[0]));
        let d2 = d.drop_first();
        assert(no_line_end(d2)) by {
            assert forall|i: int| 0 <= i < d2.len() implies !is_line_end(#[trigger] d2[i]) by {
                assert(d2[i] == d[i + 1]);
            }
        }
        assert(s.drop_first() =~= d2 + (seq![t] + rest));
        lemma_frame_skip(d2, t, rest);
        assert(Seq::<Seq<u8>>::empty() + frame(fresh(false), rest).1 =~= frame(
            fresh(false),
            rest,
        ).1);
    }
}

/// While skipping, bytes with no line end are dropped and skipping goes on.
pub proof fn lemma_frame_skip_all(d: Seq<u8>)
    requires
        no_line_end(d),
    ensures
        frame(fresh(true), d) == (fresh(true), Seq::<Seq<u8>>::empty()),
    decreases d.len(),
{
    if d.len() > 0 {
        assert(!is_line_end(d[0]));
        let d2 = d.drop_first();
        assert(no_line_end(d2)) by {
            assert forall|i: int| 0 <= i < d2.len() implies !is_line_end(#[trigger] d2[i]) by {
                assert(d2[i] == d[i + 1]);
            }
        }
        lemma_frame_skip_all(d2);
        assert(Seq::<Seq<u8>>::empty() + Seq::<Seq<u8>>::empty() =~= Seq::<Seq<u8>>::empty());
    }
}


/// A line end in front is dropped together with the empty line before it.
pub proof fn lemma_frame_empty_line(p: Seq<u8>, input: Seq<u8>)
    requires
        p.len() > 0,
        is_line_end(p[0]),
    ensures
        frame(fresh(false), p + input) == frame(fresh(false), p.subrange(1, p.len() as int) + input),
{
    let rest = p.subrange(1, p.len() as int) + input;
    assert(p + input =~= seq![p[0]] + rest);
    lemma_frame_line_end(Seq::empty(), p[0], rest);
    assert(Seq::<Seq<u8>>::empty() + frame(fresh(false), rest).1 =~= frame(fresh(false), rest).1);
}

/// A short line followed by its line end is handed out (when valid), and the framer
/// goes on from the line end.
pub proof fn lemma_frame_found_line(p: Seq<u8>, input: Seq<u8>, idx: int)
    requires
        0 < idx < p.len(),
        p.len() <= LINE_MAX,
        no_line_end(p.subrange(0, idx)),
        is_line_end(p[idx]),
    ensures
        frame(fresh(false), p + input) == (
            frame(fresh(false), p.subrange(idx, p.len() as int) + input).0,
            emit(p.subrange(0, idx)) + frame(fresh(false), p.subrange(idx, p.len() as int) + input).1,
        ),
{
    let line = p.subrange(0, idx);
    let t = p[idx];
    let rest = p.subrange(idx + 1, p.len() as int) + input;
    let after = p.subrange(idx, p.len() as int) + input;
    assert(p + input =~= line + (seq![t] + rest));
    assert(after =~= seq![t] + rest);
    lemma_frame_collect(Seq::empty(), line);
    assert(Seq::<u8>::empty() + line =~= line);
    lemma_frame_concat(fresh(false), line, seq![t] + rest);
    lemma_frame_line_end(line, t, rest);
    lemma_frame_line_end(Seq::empty(), t, rest);
    assert(Seq::<Seq<u8>>::empty() + frame(fresh(false), rest).1 =~= frame(fresh(false), rest).1);
    assert(Seq::<Seq<u8>>::empty() + (emit(line) + frame(fresh(false), rest).1) =~= emit(line)
        + frame(fresh(false), rest).1);
}

/// `LINE_MAX` bytes with no line end are handed out (when valid) as one line, and the
/// framer goes on skipping.
pub proof fn lemma_frame_full_line(p: Seq<u8>, input: Seq<u8>)
    requires
        no_line_end(p),
        p.len() == LINE_MAX,
    ensures
        frame(fresh(false), p + input) == (
            frame(fresh(true), input).0,
            emit(p) + frame(fresh(true), input).1,
        ),
{
    lemma_frame_full(p);
    lemma_frame_concat(fresh(false), p, input);
}

/// Pending bytes with no line end, shorter than a full line, produce nothing yet.
pub proof fn lemma_frame_incomplete(skipping: bool, p: Seq<u8>)
    requires
        no_line_end(p),
        p.len() < LINE_MAX,
        skipping ==> p.len() == 0,
    ensures
        frame(fresh(skipping), p).1 == Seq::<Seq<u8>>::empty(),
{
    if !skipping {
        lemma_frame_collect(Seq::empty(), p);
    }
}

/// `d` holds no line and leaves the framer fresh, skipping as `to` says, when it starts
/// fresh and skipping as `from` says: bytes that can go from the front of a stream
/// without changing the lines it holds.
pub open spec fn silent(from: bool, d: Seq<u8>, to: bool) -> bool {
    frame(fresh(from), d) == (fresh(to), Seq::<Seq<u8>>::empty())
}

/// Nothing is silent.
pub proof fn lemma_silent_empty(from: bool)
    ensures
        silent(from, Seq::empty(), from),
{
}

/// Silent pieces one after the other are silent together.
pub proof fn lemma_silent_concat(a: bool, d1: Seq<u8>, b: bool, d2: Seq<u8>, c: bool)
    requires
        silent(a, d1, b),
        silent(b, d2, c),
    ensures
        silent(a, d1 + d2, c),
{
    lemma_frame_concat(fresh(a), d1, d2);
    assert(Seq::<Seq<u8>>::empty() + Seq::<Seq<u8>>::empty() =~= Seq::<Seq<u8>>::empty());
}

/// A line end between lines is silent.
pub proof fn lemma_silent_line_end(t: u8)
    requires
        is_line_end(t),
    ensures
        silent(false, seq![t], false),
{
    lemma_frame_line_end(Seq::empty(), t, Seq::empty());
    assert(seq![t] + Seq::<u8>::empty() =~= seq![t]);
    assert(Seq::<Seq<u8>>::empty() + Seq::<Seq<u8>>::empty() =~= Seq::<Seq<u8>>::empty());
}

/// The rest of an over-long line, up to and with its line end, is silent.
pub proof fn lemma_silent_skip(d: Seq<u8>, t: u8)
    requires
        no_line_end(d),
        is_line_end(t),
    ensures
        silent(true, d.push(t), false),
{
    lemma_frame_skip(d, t, Seq::empty());
    assert(d + (seq![t] + Seq::<u8>::empty()) =~= d.push(t));
}

/// The rest of an over-long line with no line end yet is silent.
pub proof fn lemma_silent_skip_all(d: Seq<u8>)
    requires
        no_line_end(d),
    ensures
        silent(true, d, true),
{
    lemma_frame_skip_all(d);
}

/// A short line that is not valid UTF-8, with its line end, is silent.
pub proof fn lemma_silent_bad_line(line: Seq<u8>, t: u8)
    requires
        0 < line.len() < LINE_MAX,
        no_line_end(line),
        is_line_end(t),
        !valid_utf8(line),
    ensures
        silent(false, line.push(t), false),
{
    let p = line.push(t);
    assert(p.subrange(0, line.len() as int) =~= line);
    assert(p.subrange(line.len() as int, p.len() as int) =~= seq![t]);
    lemma_frame_found_line(p, Seq::empty(), line.len() as int);
    assert(p + Seq::<u8>::empty() =~= p);
    assert(seq![t] + Seq::<u8>::empty() =~= seq![t]);
    lemma_silent_line_end(t);
    assert(emit(line) =~= Seq::<Seq<u8>>::empty());
    assert(Seq::<Seq<u8>>::empty() + Seq::<Seq<u8>>::empty() =~= Seq::<Seq<u8>>::empty());
}

/// A full line with no line end that is not valid UTF-8 is silent, and starts skipping.
pub proof fn lemma_silent_bad_full(line: Seq<u8>)
    requires
        no_line_end(line),
        line.len() == LINE_MAX,
        !valid_utf8(line),
    ensures
        silent(false, line, true),
{
    lemma_frame_full(line);
}

/// A line end that follows a line being collected finishes that line, and from there
/// framing goes on as from a fresh start.
pub proof fn lemma_frame_resume(l: Seq<u8>, d: Seq<u8>)
    requires
        l.len() > 0,
        d.len() > 0,
        is_line_end(d[0]),
    ensures
        frame(Framer { cur: l, skipping: false }, d) == (
            frame(fresh(false), d).0,
            emit(l) + frame(fresh(false), d).1,
        ),
{
    let r = frame(fresh(false), d.drop_first());
    assert(frame(fresh(false), d).1 == Seq::<Seq<u8>>::empty() + r.1);
    assert(Seq::<Seq<u8>>::empty() + r.1 =~= r.1);
}

/// A line the framer hands out: not empty, at most `LINE_MAX` bytes, with no line end,
/// and valid UTF-8.
pub open spec fn line_ok(line: Seq<u8>) -> bool {
    &&& 0 < line.len() <= LINE_MAX
    &&& no_line_end(line)
    &&& valid_utf8(line)
}

/// A framer whose current line is short and holds no line end.
pub open spec fn framer_ok(st: Framer) -> bool {
    &&& no_line_end(st.cur)
    &&& st.cur.len() < LINE_MAX
}

/// Every line handed out is well formed, whatever bytes come in, and the framer stays
/// sound.
pub proof fn lemma_frame_lines_ok(st: Framer, bytes: Seq<u8>)
    requires
        framer_ok(st),
    ensures
        framer_ok(frame(st, bytes).0),
        forall|i: int| 0 <= i < frame(st, bytes).1.len() ==> line_ok(#[trigger] frame(st, bytes).1[i]),
    decreases bytes.len(),
{
    if bytes.len() > 0 {
        let b = bytes[0];
        let (s1, o1) = feed(st, b);
        assert(framer_ok(s1) && forall|i: int| 0 <= i < o1.len() ==> line_ok(#[trigger] o1[i])) by {
            if !st.skipping && !is_line_end(b) && st.cur.len() + 1 >= LINE_MAX {
                let l = st.cur.push(b);
                assert(no_line_end(l)) by {
                    assert forall|k: int| 0 <= k < l.len() implies !is_line_end(#[trigger] l[k]) by {
                        if k < st.cur.len() {
                            assert(l[k] == st.cur[k]);
                        }
                    }
                }
                assert(fresh(true).cur =~= Seq::<u8>::empty());
            } else if !st.skipping && !is_line_end(b) {
                let l = st.cur.push(b);
                assert forall|k: int| 0 <= k < l.len() implies !is_line_end(#[trigger] l[k]) by {
                    if k < st.cur.len() {
                        assert(l[k] == st.cur[k]);
                    }
                }
            } else {
                assert(fresh(false).cur =~= Seq::<u8>::empty());
            }
        }
        lemma_frame_lines_ok(s1, bytes.drop_first());
        let (s2, o2) = frame(s1, bytes.drop_first());
        assert forall|i: int| 0 <= i < (o1 + o2).len() implies line_ok(#[trigger] (o1 + o2)[i]) by {
            if i >= o1.len() {
                assert((o1 + o2)[i] == o2[i - o1.len()]);
            }
        }
    }
}

} // verus!
