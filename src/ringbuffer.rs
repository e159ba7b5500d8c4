//! A fixed-capacity circular buffer with non-blocking `put` and `get`.
//!
//! Both operations move at most one contiguous run of slots: a transfer
//! never crosses the end of the storage, so callers loop until their whole
//! request has been served.

use vstd::prelude::*;
use vstd::arithmetic::div_mod::{
    lemma_add_mod_noop_right, lemma_mod_add_multiples_vanish, lemma_small_mod,
};
use vstd::math::min;

verus! {

/// The abstract state of a ring buffer.
///
/// `contents` are the items held, oldest first; `free_slots` is the room
/// left; the cursors are the storage positions of the next write and of
/// the next read.
pub struct RingState<T> {
    pub capacity: nat,
    pub contents: Seq<T>,
    pub free_slots: nat,
    pub write_cursor: nat,
    pub read_cursor: nat,
    pub closed: bool,
}

impl<T> RingState<T> {
    /// Number of items held.
    pub open spec fn filled_slots(self) -> nat {
        self.contents.len()
    }

    /// The accounting that every reachable state satisfies.
    pub open spec fn valid(self) -> bool {
        &&& self.free_slots + self.filled_slots() == self.capacity
        &&& self.capacity == 0 ==> self.write_cursor == 0 && self.read_cursor == 0
        &&& self.capacity > 0 ==> {
            &&& self.write_cursor < self.capacity
            &&& self.read_cursor < self.capacity
            &&& self.write_cursor == (self.read_cursor + self.filled_slots()) % self.capacity
        }
    }

    /// A cursor moved forward by `n` slots, modulo the capacity.
    pub open spec fn advance(self, cursor: nat, n: nat) -> nat {
        if n == 0 {
            cursor
        } else {
            ((cursor + n) % self.capacity) as nat
        }
    }

    /// How many of `len` offered items one `put` accepts: no more than fit
    /// before the end of the storage, nor than the free slots.
    pub open spec fn put_count(self, len: nat) -> nat {
        min(min(self.capacity - self.write_cursor, self.free_slots as int), len as int) as nat
    }

    /// The state after one `put` of `input`.
    pub open spec fn after_put(self, input: Seq<T>) -> RingState<T> {
        let n = self.put_count(input.len());
        RingState {
            contents: self.contents + input.take(n as int),
            free_slots: (self.free_slots - n) as nat,
            write_cursor: self.advance(self.write_cursor, n),
            ..self
        }
    }

    /// How many items one `get` into room for `max` items hands out: no
    /// more than lie before the end of the storage, nor than are held.
    pub open spec fn get_count(self, max: nat) -> nat {
        min(min(self.capacity - self.read_cursor, self.filled_slots() as int), max as int) as nat
    }

    /// The state after one `get` into room for `max` items.
    pub open spec fn after_get(self, max: nat) -> RingState<T> {
        let n = self.get_count(max);
        RingState {
            contents: self.contents.skip(n as int),
            free_slots: self.free_slots + n,
            read_cursor: self.advance(self.read_cursor, n),
            ..self
        }
    }

    /// The state after `close`.
    pub open spec fn after_close(self) -> RingState<T> {
        RingState { closed: true, ..self }
    }
}

/// `i % m`, for `i` below twice `m`, is `i` folded back once.
proof fn lemma_fold_mod(i: int, m: int)
    requires
        0 < m,
        0 <= i < 2 * m,
    ensures
        i % m == if i < m { i } else { i - m },
{
    if i < m {
        lemma_small_mod(i as nat, m as nat);
    } else {
        lemma_mod_add_multiples_vanish(i - m, m);
        lemma_small_mod((i - m) as nat, m as nat);
    }
}

/// A `put` keeps the accounting of a valid state.
pub proof fn lemma_put_keeps_valid<T>(s: RingState<T>, input: Seq<T>)
    requires
        s.valid(),
    ensures
        s.after_put(input).valid(),
{
    let n = s.put_count(input.len());
    if n > 0 {
        lemma_add_mod_noop_right(
            n as int,
            (s.read_cursor + s.filled_slots()) as int,
            s.capacity as int,
        );
    }
}

/// A `get` keeps the accounting of a valid state.
pub proof fn lemma_get_keeps_valid<T>(s: RingState<T>, max: nat)
    requires
        s.valid(),
    ensures
        s.after_get(max).valid(),
{
    let n = s.get_count(max);
    if n > 0 {
        lemma_add_mod_noop_right(
            s.filled_slots() - n,
            (s.read_cursor + n) as int,
            s.capacity as int,
        );
    }
}

/// Runs rounds of transfers on a buffer state: each round is one `put` of
/// its items followed by one `get` into room for its count. Returns the
/// final state, the items that the puts accepted, in order, and the items
/// that the gets handed out, in order. Any sequence of puts and gets is
/// such a run, with empty puts or gets of nothing where two of a kind
/// follow each other. Puts are only made on open buffers, and neither
/// operation changes whether the buffer is closed.
pub open spec fn run_rounds<T>(s: RingState<T>, rounds: Seq<(Seq<T>, nat)>) -> (
    RingState<T>,
    Seq<T>,
    Seq<T>,
)
    decreases rounds.len(),
{
    if rounds.len() == 0 {
        (s, Seq::empty(), Seq::empty())
    } else {
        let (input, max) = rounds.last();
        let (prev, accepted, delivered) = run_rounds(s, rounds.drop_last());
        let mid = prev.after_put(input);
        (
            mid.after_get(max),
            accepted + input.take(prev.put_count(input.len()) as int),
            delivered + mid.contents.take(mid.get_count(max) as int),
        )
    }
}

/// For every sequence of puts and gets, the free and filled slots add up
/// to the capacity in every state, and the items held before, followed by
/// all that were accepted, equal all that were handed out followed by the
/// items held after: nothing is lost, duplicated or reordered.
pub proof fn lemma_rounds_fifo<T>(s: RingState<T>, rounds: Seq<(Seq<T>, nat)>)
    requires
        s.valid(),
    ensures
        run_rounds(s, rounds).0.valid(),
        run_rounds(s, rounds).0.free_slots + run_rounds(s, rounds).0.filled_slots()
            == s.capacity,
        s.contents + run_rounds(s, rounds).1 == run_rounds(s, rounds).2 + run_rounds(
            s,
            rounds,
        ).0.contents,
    decreases rounds.len(),
{
    if rounds.len() > 0 {
        let (input, max) = rounds.last();
        lemma_rounds_fifo(s, rounds.drop_last());
        let (prev, accepted, delivered) = run_rounds(s, rounds.drop_last());
        lemma_put_keeps_valid(prev, input);
        let mid = prev.after_put(input);
        lemma_get_keeps_valid(mid, max);
        let taken = input.take(prev.put_count(input.len()) as int);
        let g = mid.get_count(max) as int;
        assert(mid.contents.take(g) + mid.contents.skip(g) =~= mid.contents);
        assert(s.contents + (accepted + taken) =~= (s.contents + accepted) + taken);
        assert((delivered + mid.contents.take(g)) + mid.contents.skip(g) =~= delivered + (
        mid.contents.take(g) + mid.contents.skip(g)));
        assert(delivered + prev.contents + taken =~= delivered + (prev.contents + taken));
    }
}

/// Items put into an empty buffer and drained from it by any sequence of
/// puts and gets come out exactly as they went in.
pub proof fn lemma_drained_output_equals_input<T>(s: RingState<T>, rounds: Seq<(Seq<T>, nat)>)
    requires
        s.valid(),
        s.filled_slots() == 0,
        run_rounds(s, rounds).0.filled_slots() == 0,
    ensures
        run_rounds(s, rounds).2 == run_rounds(s, rounds).1,
{
    lemma_rounds_fifo(s, rounds);
    let (fin, accepted, delivered) = run_rounds(s, rounds);
    assert(s.contents + accepted =~= accepted);
    assert(delivered + fin.contents =~= delivered);
}

/// Closing keeps what is held and can be drained: after `close`, each
/// `get` into non-empty room hands out at least one item while any are
/// held, the buffer stays closed, and the items come out as they went in.
/// Closing a second time changes nothing.
pub proof fn lemma_close_semantics<T>(s: RingState<T>, max: nat)
    requires
        s.valid(),
    ensures
        s.after_close().valid(),
        s.after_close().contents == s.contents,
        s.after_close().after_close() == s.after_close(),
        s.after_close().after_get(max).closed,
        s.filled_slots() > 0 && max > 0 ==> s.after_close().get_count(max) > 0,
        s.after_close().contents.take(s.after_close().get_count(max) as int)
            + s.after_close().after_get(max).contents == s.contents,
{
    let c = s.after_close();
    let g = c.get_count(max) as int;
    assert(c.contents.take(g) + c.contents.skip(g) =~= s.contents);
}

/// Fixed-size ring buffer of `capacity` slots, allocated once.
///
/// When full, `put` accepts nothing and reports zero items; when empty,
/// `get` hands out nothing and reports zero items. After `close`, `put`
/// may no longer be called, while `get` keeps draining what is held.
///
/// A capacity of zero gives a buffer that is at once full and empty: it
/// accepts nothing and hands out nothing.
pub struct RingBuffer<T: Copy> {
    capacity: usize,
    buffer: Vec<T>,
    write_pos: usize,
    available_to_write: usize,
    read_pos: usize,
    available_to_read: usize,
    closed: bool,
}

impl<T: Copy> View for RingBuffer<T> {
    type V = RingState<T>;

    closed spec fn view(&self) -> RingState<T> {
        RingState {
            capacity: self.capacity as nat,
            contents: Seq::new(
                self.available_to_read as nat,
                |k: int| self.buffer@[self.slot(self.read_pos + k)],
            ),
            free_slots: self.available_to_write as nat,
            write_cursor: self.write_pos as nat,
            read_cursor: self.read_pos as nat,
            closed: self.closed,
        }
    }
}

impl<T: Copy> RingBuffer<T> {
    /// The storage position of the `i`-th slot counted from position zero,
    /// going round at most once.
    spec fn slot(&self, i: int) -> int {
        if i < self.capacity {
            i
        } else {
            i - self.capacity
        }
    }

    /// Well-formedness: the counts add up to the capacity, the cursors are
    /// in range, and every held item lies in storage that has been written.
    /// The storage grows to `capacity` slots during the first round of
    /// writes and never beyond.
    pub closed spec fn wf(&self) -> bool {
        &&& self.available_to_write + self.available_to_read == self.capacity
        &&& self.capacity == 0 ==> self.write_pos == 0 && self.read_pos == 0
        &&& self.capacity > 0 ==> self.write_pos < self.capacity && self.read_pos
            < self.capacity
        &&& self.write_pos == self.slot(self.read_pos + self.available_to_read)
        &&& self.buffer@.len() == self.capacity || (self.buffer@.len() == self.write_pos
            && self.read_pos + self.available_to_read == self.write_pos)
    }

    /// Well-formed buffers have valid abstract states.
    pub proof fn lemma_view_valid(&self)
        requires
            self.wf(),
        ensures
            self@.valid(),
    {
        if self.capacity > 0 {
            lemma_fold_mod(self.read_pos + self.available_to_read, self.capacity as int);
        }
    }

    /// Constructs an empty, open buffer of capacity `size`.
    pub fn new(size: usize) -> (r: RingBuffer<T>)
        ensures
            r.wf(),
            r@.valid(),
            r@.capacity == size,
            r@.contents.len() == 0,
            r@.free_slots == size,
            r@.write_cursor == 0,
            r@.read_cursor == 0,
            !r@.closed,
    {
        let r = RingBuffer {
            capacity: size,
            buffer: Vec::with_capacity(size),
            write_pos: 0,
            available_to_write: size,
            read_pos: 0,
            available_to_read: 0,
            closed: false,
        };
        proof {
            r.lemma_view_valid();
        }
        r
    }

    /// Puts as many leading items of `input` as fit in one contiguous run
    /// of free slots, and returns how many were put. Not every item that
    /// fits is necessarily taken: a put stops at the end of the storage,
    /// so callers loop until all of `input` has been put. A put into a full
    /// buffer, or of no items, takes nothing and changes nothing; otherwise
    /// at least one item is put.
    pub fn put(&mut self, input: &[T]) -> (n: usize)
        requires
            old(self).wf(),
            !old(self)@.closed,
        ensures
            final(self).wf(),
            final(self)@.valid(),
            n == old(self)@.put_count(input@.len()),
            final(self)@ == old(self)@.after_put(input@),
            old(self)@.free_slots == 0 || input@.len() == 0 ==> n == 0 && final(self)@ == old(
                self,
            )@,
            old(self)@.free_slots > 0 && input@.len() > 0 ==> n > 0,
    {
        if self.available_to_write == 0 {
            assert(self@.contents + input@.take(0) =~= self@.contents);
            proof {
                self.lemma_view_valid();
            }
            return 0;
        }
        let distance_to_end = self.capacity - self.write_pos;
        let available = if distance_to_end < self.available_to_write {
            distance_to_end
        } else {
            self.available_to_write
        };
        let length = if available < input.len() {
            available
        } else {
            input.len()
        };
        let ghost old_buf = self.buffer@;
        let ghost full = old_buf.len() == self.capacity;
        let mut i: usize = 0;
        while i < length
            invariant
                i <= length,
                length <= self.capacity - self.write_pos,
                length <= input@.len(),
                length <= self.available_to_write,
                self.capacity == old(self).capacity,
                self.write_pos == old(self).write_pos,
                self.read_pos == old(self).read_pos,
                self.available_to_write == old(self).available_to_write,
                self.available_to_read == old(self).available_to_read,
                self.closed == old(self).closed,
                full == (old_buf.len() == self.capacity),
                old_buf == old(self).buffer@,
                full ==> self.buffer@.len() == old_buf.len(),
                !full ==> old_buf.len() == self.write_pos && self.buffer@.len() == self.write_pos
                    + i,
                forall|j: int|
                    0 <= j < old_buf.len() && !(self.write_pos <= j < self.write_pos + i)
                        ==> self.buffer@[j] == old_buf[j],
                forall|j: int|
                    0 <= j < i ==> self.buffer@[self.write_pos + j] == input@[j],
            decreases length - i,
        {
            let pos = self.write_pos + i;
            if pos < self.buffer.len() {
                self.buffer.set(pos, input[i]);
            } else {
                self.buffer.push(input[i]);
            }
            i = i + 1;
        }
        let ghost before = *old(self);
        self.available_to_write = self.available_to_write - length;
        self.available_to_read = self.available_to_read + length;
        self.write_pos = (self.write_pos + length) % self.capacity;
        proof {
            let wp = before.write_pos as int;
            let rp = before.read_pos as int;
            let filled = before.available_to_read as int;
            let cap = self.capacity as int;
            lemma_fold_mod(wp + length, cap);
            lemma_fold_mod(rp + filled, cap);
            assert forall|k: int| 0 <= k < filled implies !(wp <= #[trigger] before.slot(rp + k)
                < wp + length) by {}
            assert(self@.contents =~= old(self)@.contents + input@.take(length as int));
            self.lemma_view_valid();
        }
        length
    }

    /// Gets as many of the oldest items as lie in one contiguous run of
    /// storage and fit in `output`, copies them to the front of `output`,
    /// and returns how many were got. The rest of `output` is left as it
    /// was. A get from an empty buffer, or into an empty `output`, takes
    /// nothing and changes nothing; otherwise at least one item is got.
    /// Getting is allowed after `close`, so that the buffer can be drained.
    pub fn get(&mut self, output: &mut [T]) -> (n: usize)
        requires
            old(self).wf(),
        ensures
            final(self).wf(),
            final(self)@.valid(),
            n == old(self)@.get_count(old(output)@.len()),
            final(self)@ == old(self)@.after_get(old(output)@.len()),
            final(output)@ == old(self)@.contents.take(n as int) + old(output)@.skip(n as int),
            old(self)@.filled_slots() == 0 || old(output)@.len() == 0 ==> n == 0 && final(self)@
                == old(self)@ && final(output)@ == old(output)@,
            old(self)@.filled_slots() > 0 && old(output)@.len() > 0 ==> n > 0,
    {
        if self.available_to_read == 0 {
            assert(self@.contents.skip(0) =~= self@.contents);
            assert(output@ =~= self@.contents.take(0) + output@.skip(0));
            proof {
                self.lemma_view_valid();
            }
            return 0;
        }
        let distance_to_end = self.capacity - self.read_pos;
        let available = if distance_to_end < self.available_to_read {
            distance_to_end
        } else {
            self.available_to_read
        };
        let length = if available < output.len() {
            available
        } else {
            output.len()
        };
        let ghost old_out = output@;
        let mut i: usize = 0;
        while i < length
            invariant
                i <= length,
                length <= self.available_to_read,
                length <= self.capacity - self.read_pos,
                length <= old_out.len(),
                self.wf(),
                self == old(self),
                output@.len() == old_out.len(),
                forall|j: int| i <= j < old_out.len() ==> output@[j] == old_out[j],
                forall|j: int| 0 <= j < i ==> output@[j] == self@.contents[j],
            decreases length - i,
        {
            output[i] = self.buffer[self.read_pos + i];
            i = i + 1;
        }
        let ghost before = *self;
        self.available_to_read = self.available_to_read - length;
        self.available_to_write = self.available_to_write + length;
        self.read_pos = (self.read_pos + length) % self.capacity;
        proof {
            let rp = before.read_pos as int;
            let cap = self.capacity as int;
            lemma_fold_mod(rp + length, cap);
            lemma_fold_mod(rp + before.available_to_read, cap);
            assert(self@.contents =~= before@.contents.skip(length as int));
            assert(output@ =~= before@.contents.take(length as int) + old_out.skip(length as int));
            self.lemma_view_valid();
        }
        length
    }

    /// Returns true if the buffer holds no items, so that `get` hands out
    /// nothing.
    pub fn is_empty(&self) -> (r: bool)
        ensures
            r == (self@.filled_slots() == 0),
    {
        self.available_to_read == 0
    }

    /// Returns true if the buffer has no free slot, so that `put` accepts
    /// nothing.
    pub fn is_full(&self) -> (r: bool)
        ensures
            r == (self@.free_slots == 0),
    {
        self.available_to_write == 0
    }

    /// Closes the buffer: `put` may no longer be called. Closing a closed
    /// buffer changes nothing.
    pub fn close(&mut self)
        requires
            old(self).wf(),
        ensures
            final(self).wf(),
            final(self)@.valid(),
            final(self)@ == old(self)@.after_close(),
            final(self)@.closed,
            old(self)@.closed ==> final(self)@ == old(self)@,
    {
        self.closed = true;
        assert(self@.contents =~= old(self)@.contents);
        proof {
            self.lemma_view_valid();
        }
    }

    /// Returns true if the buffer is closed.
    pub fn is_closed(&self) -> (r: bool)
        ensures
            r == self@.closed,
    {
        self.closed
    }
}

} // verus!
