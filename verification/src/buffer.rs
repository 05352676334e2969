use std::sync::mpsc::{Receiver, Sender};
use vstd::prelude::*;
use vstd::utf8::*;
use vstd::string::StringSliceAdditionalSpecFns;
use crate::utf8::{lemma_encode_utf8_concat, lemma_encode_utf8_empty};

verus! {

#[verifier::external_type_specification]
#[verifier::external_body]
#[verifier::reject_recursive_types(T)]
pub struct ExSender<T>(Sender<T>);

#[verifier::external_type_specification]
#[verifier::external_body]
#[verifier::reject_recursive_types(T)]
pub struct ExReceiver<T>(Receiver<T>);

/// Calls `std::sync::mpsc::channel`; nothing is claimed of the pair it returns.
#[verifier::external_body]
fn return_channel() -> (pair: (Sender<String>, Receiver<String>)) {
    std::sync::mpsc::channel()
}

/// Calls `Sender::clone`; nothing is claimed of the new handle.
#[verifier::external_body]
fn clone_sender(tx: &Sender<String>) -> (res: Sender<String>) {
    tx.clone()
}

/// Calls `Sender::send` and drops its result: `send` reports a closed channel as an
/// error value and does not unwind.
#[verifier::external_body]
fn send_contents(tx: &Sender<String>, contents: String)
    opens_invariants none
    no_unwind
{
    let _ = tx.send(contents);
}

/// Calls `Receiver::try_recv`. What comes back depends on what other handles sent,
/// so nothing is claimed of it.
#[verifier::external_body]
fn try_receive(rx: &Receiver<String>) -> (res: Option<String>) {
    rx.try_recv().ok()
}

/// Calls `String::with_capacity`: the new string is empty. It panics on a capacity
/// over `isize::MAX` bytes, which `requires` leaves out.
#[verifier::external_body]
fn string_with_capacity(size: usize) -> (res: String)
    requires
        size <= isize::MAX,
    ensures
        res@ == Seq::<char>::empty(),
{
    String::with_capacity(size)
}

/// Calls `String::capacity`: by the documentation, never less than the string's
/// length in bytes and never more than `isize::MAX`. How much more than the length the
/// allocator gave is left unsaid.
#[verifier::external_body]
fn string_capacity(s: &String) -> (res: usize)
    ensures
        encode_utf8(s@).len() <= res <= isize::MAX,
{
    s.capacity()
}

/// Calls `String::push_str`: the string grows by the characters of `value`. While the
/// new length stays within `isize::MAX` bytes, growing does not panic.
#[verifier::external_body]
fn push_str(s: &mut String, value: &str)
    requires
        encode_utf8(old(s)@).len() + value.spec_bytes().len() <= isize::MAX,
    ensures
        final(s)@ == old(s)@ + value@,
    opens_invariants none
    no_unwind
{
    s.push_str(value)
}

/// Calls `String::as_mut_str`: the whole string as a mutable slice, whose final contents
/// become the string's. A `str` cannot change its length in bytes in place.
#[verifier::external_body]
fn string_as_mut_str(s: &mut String) -> (res: &mut str)
    ensures
        res@ == old(s)@,
        final(s)@ == final(res)@,
        encode_utf8(final(res)@).len() == encode_utf8(res@).len(),
    opens_invariants none
    no_unwind
{
    s.as_mut_str()
}

/// Calls `String::clear`: the string becomes empty (its allocation is kept).
#[verifier::external_body]
fn clear_string(s: &mut String)
    ensures
        final(s)@ == Seq::<char>::empty(),
{
    s.clear()
}

/// Calls `std::mem::take` on a string: the old contents come back and an empty string
/// is left behind; it does not unwind.
#[verifier::external_body]
fn take_string(s: &mut String) -> (res: String)
    ensures
        res@ == old(s)@,
        final(s)@ == Seq::<char>::empty(),
    opens_invariants none
    no_unwind
{
    std::mem::take(s)
}

/// A string with a fixed byte budget that goes back to the pool it came from when it
/// is dropped.
pub struct Buffer {
    contents: String,
    limit: usize,
    return_tx: Sender<String>,
}

impl Buffer {
    #[verifier::type_invariant]
    spec fn within_limit(self) -> bool {
        &&& encode_utf8(self.contents@).len() <= self.limit
        &&& self.limit <= isize::MAX
    }

    /// The characters held.
    pub closed spec fn view(&self) -> Seq<char> {
        self.contents@
    }

    /// The UTF-8 bytes held.
    pub open spec fn bytes(&self) -> Seq<u8> {
        encode_utf8(self.view())
    }

    /// How many bytes the buffer may hold.
    pub closed spec fn limit(&self) -> nat {
        self.limit as nat
    }

    pub fn new(size: usize, return_tx: Sender<String>) -> (res: Buffer)
        requires
            size <= isize::MAX,
        ensures
            res.view() == Seq::<char>::empty(),
            res.limit() == size,
    {
        proof {
            lemma_encode_utf8_empty();
        }
        Buffer { contents: string_with_capacity(size), limit: size, return_tx }
    }

    /// Wraps an existing string; its byte budget is the string's capacity.
    pub fn wrap(contents: String, return_tx: Sender<String>) -> (res: Buffer)
        ensures
            res.view() == contents@,
            res.limit() >= res.bytes().len(),
    {
        let limit = string_capacity(&contents);
        Buffer { contents, limit, return_tx }
    }

    /// An emptied string that comes back to a pool, with the pool's byte budget.
    fn recycled(contents: String, limit: usize, return_tx: Sender<String>) -> (res: Buffer)
        requires
            limit <= isize::MAX,
            contents@ == Seq::<char>::empty(),
        ensures
            res.view() == Seq::<char>::empty(),
            res.limit() == limit,
    {
        proof {
            lemma_encode_utf8_empty();
        }
        Buffer { contents, limit, return_tx }
    }

    pub fn as_str(&self) -> (res: &str)
        ensures
            res@ == self.view(),
            self.bytes().len() <= self.limit() <= isize::MAX,
    {
        proof {
            use_type_invariant(self);
        }
        self.contents.as_str()
    }

    /// The contents as a mutable string slice; its length in bytes stays as it is.
    pub fn as_mut_str(&mut self) -> (res: &mut str)
        ensures
            res@ == old(self).view(),
            final(self).view() == final(res)@,
            final(self).limit() == old(self).limit(),
    {
        proof {
            use_type_invariant(&*self);
        }
        string_as_mut_str(&mut self.contents)
    }

    /// Appends `value` if it fits in the remaining byte budget, and refuses it whole
    /// otherwise.
    pub fn append(&mut self, value: &str) -> (res: Result<(), ()>)
        requires
            value.spec_bytes().len() <= usize::MAX,
        ensures
            res is Ok <==> old(self).bytes().len() + value.spec_bytes().len() <= old(self).limit(),
            res is Ok ==> final(self).view() == old(self).view() + value@,
            res is Err ==> final(self).view() == old(self).view(),
            final(self).limit() == old(self).limit(),
    {
        proof {
            use_type_invariant(&*self);
        }
        let used = self.contents.as_str().len();
        if value.len() <= self.limit - used {
            proof {
                lemma_encode_utf8_concat(self.contents@, value@);
            }
            push_str(&mut self.contents, value);
            Ok(())
        } else {
            Err(())
        }
    }
}

impl Drop for Buffer {
    fn drop(&mut self)
        opens_invariants none
        no_unwind
    {
        proof {
            use_type_invariant(&*self);
            lemma_encode_utf8_empty();
        }
        let contents = take_string(&mut self.contents);
        send_contents(&self.return_tx, contents);
    }
}

#[derive(Debug, Copy, Clone)]
pub enum BufferError {
    Empty,
}

/// A bounded pool of equally sized buffers. Dropped buffers come back through a
/// channel and are reused before new ones are made.
pub struct BufferPool {
    buffer_size: usize,
    buffers: Vec<Buffer>,
    loaned: usize,
    count: usize,
    return_rx: Receiver<String>,
    return_tx: Sender<String>,
}

/// What one `take` may do, given how many loaned buffers (`k`) came back before it
/// looked: free and loaned counts before and after, and whether it succeeded.
pub open spec fn take_outcome(
    free0: nat,
    loaned0: nat,
    count: nat,
    k: nat,
    free: nat,
    loaned: nat,
    ok: bool,
) -> bool {
    let free1 = free0 + k;
    let loaned1 = loaned0 - k;
    if free1 == 0 && loaned1 < count {
        ok && free == 0 && loaned == loaned1 + 1
    } else if free1 > 0 {
        ok && free == free1 - 1 && loaned == loaned1 + 1
    } else {
        !ok && free == 0 && loaned == loaned1
    }
}

impl BufferPool {
    pub closed spec fn buffer_size(&self) -> nat {
        self.buffer_size as nat
    }

    /// The most buffers the pool ever makes.
    pub closed spec fn count(&self) -> nat {
        self.count as nat
    }

    /// Buffers that are on loan.
    pub closed spec fn loaned(&self) -> nat {
        self.loaned as nat
    }

    /// Buffers that are ready to be taken.
    pub closed spec fn free(&self) -> nat {
        self.buffers@.len()
    }

    pub open spec fn size(&self) -> nat {
        self.loaned() + self.free()
    }

    pub closed spec fn wf(&self) -> bool {
        &&& self.loaned + self.buffers@.len() <= self.count
        &&& self.buffer_size <= isize::MAX
        &&& forall|i: int|
            0 <= i < self.buffers@.len() ==> {
                &&& (#[trigger] self.buffers@[i]).view() == Seq::<char>::empty()
                &&& self.buffers@[i].limit() == self.buffer_size
            }
    }

    pub fn new(size: usize, count: usize) -> (res: BufferPool)
        requires
            size <= isize::MAX,
        ensures
            res.wf(),
            res.buffer_size() == size,
            res.count() == count,
            res.loaned() == 0,
            res.free() == 0,
    {
        let buffers = Vec::with_capacity(count);
        let (return_tx, return_rx) = return_channel();
        BufferPool { buffer_size: size, buffers, loaned: 0, count, return_rx, return_tx }
    }

    /// Takes a free buffer, making a new one while fewer than `count` exist. Buffers
    /// dropped since the last call are reclaimed first; how many came back is not known
    /// in advance, so the contract states what holds for every number of them.
    pub fn take(&mut self) -> (res: Result<Buffer, BufferError>)
        requires
            old(self).wf(),
        ensures
            final(self).wf(),
            final(self).buffer_size() == old(self).buffer_size(),
            final(self).count() == old(self).count(),
            exists|k: nat|
                k <= old(self).loaned() && #[trigger] take_outcome(
                    old(self).free(),
                    old(self).loaned(),
                    old(self).count(),
                    k,
                    final(self).free(),
                    final(self).loaned(),
                    res is Ok,
                ),
            old(self).free() > 0 || old(self).loaned() < old(self).count() ==> res is Ok,
            res matches Ok(buf) ==> buf.view() == Seq::<char>::empty() && buf.limit()
                == old(self).buffer_size(),
    {
        let ghost loaned0 = self.loaned;
        let ghost free0 = self.buffers@.len();
        self.maybe_recover_buffers();
        let ghost k: nat = (loaned0 - self.loaned) as nat;
        if self.buffers.is_empty() && self.loaned < self.count {
            let tx = clone_sender(&self.return_tx);
            self.buffers.push(Buffer::new(self.buffer_size, tx));
        }
        let res = match self.buffers.pop() {
            Some(buf) => {
                self.loaned = self.loaned + 1;
                Ok(buf)
            },
            None => Err(BufferError::Empty),
        };
        proof {
            assert(take_outcome(
                old(self).free(),
                old(self).loaned(),
                old(self).count(),
                k,
                self.free(),
                self.loaned(),
                res is Ok,
            ));
        }
        res
    }

    /// How many buffers the pool has made: those on loan and those free.
    pub fn size_buffers(&self) -> (res: usize)
        requires
            self.wf(),
        ensures
            res == self.size(),
    {
        self.loaned + self.buffers.len()
    }

    /// Reclaims the contents of dropped buffers, as long as some are on loan.
    fn maybe_recover_buffers(&mut self)
        requires
            old(self).wf(),
        ensures
            final(self).wf(),
            final(self).buffer_size() == old(self).buffer_size(),
            final(self).count() == old(self).count(),
            final(self).loaned() <= old(self).loaned(),
            final(self).free() == old(self).free() + (old(self).loaned() - final(self).loaned()),
    {
        while self.loaned > 0
            invariant
                self.wf(),
                self.buffer_size == old(self).buffer_size,
                self.count == old(self).count,
                self.loaned <= old(self).loaned,
                self.buffers@.len() == old(self).buffers@.len() + (old(self).loaned - self.loaned),
            decreases self.loaned,
        {
            match try_receive(&self.return_rx) {
                Some(contents) => {
                    let mut contents = contents;
                    clear_string(&mut contents);
                    let tx = clone_sender(&self.return_tx);
                    self.buffers.push(Buffer::recycled(contents, self.buffer_size, tx));
                    self.loaned = self.loaned - 1;
                },
                None => {
                    break ;
                },
            }
        }
    }
}

/// A pool never holds more buffers than it was made for.
pub proof fn lemma_pool_size_bounded(pool: &BufferPool)
    requires
        pool.wf(),
    ensures
        pool.size() <= pool.count(),
{
}

} // verus!
