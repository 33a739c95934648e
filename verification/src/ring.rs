use vstd::prelude::*;
use vstd::wrapping::u64_specs::{wrapping_add, wrapping_sub};

verus! {

/// `n` is a power of two: it is nonzero and has a single bit set.
pub open spec fn is_power_of_two(n: u64) -> bool {
    n != 0 && n & ((n - 1) as u64) == 0
}

/// The queue after offering `v` to a queue `q` that holds at most `cap` items, and whether
/// `v` was taken: it is appended when there is room, and refused otherwise.
pub open spec fn queue_push<T>(q: Seq<T>, cap: nat, v: T) -> (Seq<T>, bool) {
    if q.len() < cap {
        (q.push(v), true)
    } else {
        (q, false)
    }
}

/// The queue after taking the oldest item of `q`, and that item; `None` when `q` is empty.
pub open spec fn queue_pop<T>(q: Seq<T>) -> (Seq<T>, Option<T>) {
    if q.len() == 0 {
        (q, None)
    } else {
        (q.drop_first(), Some(q[0]))
    }
}

/// The queue after offering each item of `xs` in turn to `q`, which holds at most `cap` items.
pub open spec fn push_all<T>(q: Seq<T>, cap: nat, xs: Seq<T>) -> Seq<T>
    decreases xs.len(),
{
    if xs.len() == 0 {
        q
    } else {
        push_all(queue_push(q, cap, xs[0]).0, cap, xs.drop_first())
    }
}

/// The results of taking `n` items in turn from `q`.
pub open spec fn pop_n<T>(q: Seq<T>, n: nat) -> Seq<Option<T>>
    decreases n,
{
    if n == 0 {
        Seq::empty()
    } else {
        seq![queue_pop(q).1] + pop_n(queue_pop(q).0, (n - 1) as nat)
    }
}

/// A queue never grows past its capacity.
pub proof fn lemma_push_keeps_bound<T>(q: Seq<T>, cap: nat, v: T)
    requires
        q.len() <= cap,
    ensures
        queue_push(q, cap, v).0.len() <= cap,
        queue_push(q, cap, v).1 <==> q.len() < cap,
{
}

/// Offering items that fit appends them all, in order.
pub proof fn lemma_push_all_fits<T>(q: Seq<T>, cap: nat, xs: Seq<T>)
    requires
        q.len() + xs.len() <= cap,
    ensures
        push_all(q, cap, xs) == q + xs,
    decreases xs.len(),
{
    if xs.len() > 0 {
        lemma_push_all_fits(q.push(xs[0]), cap, xs.drop_first());
        assert(q.push(xs[0]) + xs.drop_first() =~= q + xs);
    }
}

/// A queue that is full refuses every further item.
pub proof fn lemma_push_all_full<T>(q: Seq<T>, cap: nat, xs: Seq<T>)
    requires
        q.len() >= cap,
    ensures
        push_all(q, cap, xs) == q,
    decreases xs.len(),
{
    if xs.len() > 0 {
        lemma_push_all_full(q, cap, xs.drop_first());
    }
}

/// Taking `n` items gives the first `n` items held, oldest first, then `None` for each take
/// from the emptied queue.
pub proof fn lemma_pop_n<T>(q: Seq<T>, n: nat)
    ensures
        pop_n(q, n).len() == n,
        forall|i: int|
            0 <= i < n ==> #[trigger] pop_n(q, n)[i] == if i < q.len() {
                Some(q[i])
            } else {
                None
            },
    decreases n,
{
    if n > 0 {
        let (rest, first) = queue_pop(q);
        lemma_pop_n(rest, (n - 1) as nat);
        assert forall|i: int| 0 <= i < n implies #[trigger] pop_n(q, n)[i] == if i < q.len() {
            Some(q[i])
        } else {
            None
        } by {
            if i > 0 {
                assert(pop_n(q, n)[i] == pop_n(rest, (n - 1) as nat)[i - 1]);
            }
        }
    }
}

/// First in, first out: items offered to a queue with room for them all are taken back after
/// the items it already held, in the order they were offered.
pub proof fn lemma_fifo<T>(q: Seq<T>, cap: nat, xs: Seq<T>)
    requires
        q.len() + xs.len() <= cap,
    ensures
        pop_n(push_all(q, cap, xs), q.len() + xs.len()) == (q + xs).map_values(
            |v: T| Some(v),
        ),
{
    lemma_push_all_fits(q, cap, xs);
    lemma_pop_n(q + xs, q.len() + xs.len());
    assert(pop_n(q + xs, q.len() + xs.len()) =~= (q + xs).map_values(|v: T| Some(v)));
}

/// One call on a queue: offering an item, or taking the oldest one.
pub enum QueueOp<T> {
    Push(T),
    Pop,
}

/// The queue after one call on `q`, which holds at most `cap` items, with `1` in the first
/// count when the call was an accepted push and `1` in the second when it was a take that
/// returned an item.
pub open spec fn apply_op<T>(q: Seq<T>, cap: nat, op: QueueOp<T>) -> (Seq<T>, nat, nat) {
    match op {
        QueueOp::Push(v) => {
            let (q1, ok) = queue_push(q, cap, v);
            (q1, if ok { 1nat } else { 0nat }, 0nat)
        },
        QueueOp::Pop => {
            let (q1, r) = queue_pop(q);
            (q1, 0nat, if r is Some { 1nat } else { 0nat })
        },
    }
}

/// The queue after the calls `ops` in turn on `q`, with the number of accepted pushes and the
/// number of takes that returned an item.
pub open spec fn run_ops<T>(q: Seq<T>, cap: nat, ops: Seq<QueueOp<T>>) -> (Seq<T>, nat, nat)
    decreases ops.len(),
{
    if ops.len() == 0 {
        (q, 0, 0)
    } else {
        let (q1, p1, t1) = apply_op(q, cap, ops[0]);
        let (q2, p2, t2) = run_ops(q1, cap, ops.drop_first());
        (q2, p1 + p2, t1 + t2)
    }
}

/// Over any sequence of calls, the number of items held is the number held at the start, plus
/// the pushes that were accepted, minus the takes that returned an item, and never exceeds the
/// capacity. From an empty queue it is accepted pushes minus successful takes.
pub proof fn lemma_history_len<T>(q: Seq<T>, cap: nat, ops: Seq<QueueOp<T>>)
    requires
        q.len() <= cap,
    ensures
        ({
            let (q2, pushed, taken) = run_ops(q, cap, ops);
            &&& q2.len() + taken == q.len() + pushed
            &&& q2.len() <= cap
        }),
    decreases ops.len(),
{
    if ops.len() > 0 {
        let (q1, p1, t1) = apply_op(q, cap, ops[0]);
        lemma_history_len(q1, cap, ops.drop_first());
    }
}

/// Bounded FIFO ring buffer of capacity `N` (a power of two).
///
/// `head` counts the items taken and `tail` the items put, both modulo 2^64; an item put as
/// number `k` lives in slot `k & (N - 1)`.
#[derive(Debug)]
pub struct RingBuffer<T: Copy + Default, const N: usize> {
    head: u64,
    tail: u64,
    slots: Vec<T>,
}

proof fn lemma_tail_from_head(h: u64, t: u64)
    by (bit_vector)
    ensures
        (h + wrapping_sub(t, h)) as u64 == t,
{
}

proof fn lemma_slots_differ(h: u64, i: u64, c: u64, n: u64)
    by (bit_vector)
    requires
        n != 0,
        n & ((n - 1) as u64) == 0,
        i < c,
        c < n,
    ensures
        ((h + i) as u64) & ((n - 1) as u64) != ((h + c) as u64) & ((n - 1) as u64),
{
}

proof fn lemma_count_after_push(h: u64, t: u64, n: u64)
    by (bit_vector)
    requires
        wrapping_sub(t, h) < n,
    ensures
        wrapping_sub(wrapping_add(t, 1), h) == wrapping_sub(t, h) + 1,
{
}

proof fn lemma_count_after_pop(h: u64, t: u64)
    by (bit_vector)
    requires
        wrapping_sub(t, h) > 0,
    ensures
        wrapping_sub(t, wrapping_add(h, 1)) == wrapping_sub(t, h) - 1,
{
}

proof fn lemma_position_after_pop(h: u64, i: u64)
    by (bit_vector)
    requires
        i < 0xffff_ffff_ffff_ffff,
    ensures
        (wrapping_add(h, 1) + i) as u64 == (h + (i + 1)) as u64,
{
}

proof fn lemma_mask_below(x: u64, n: u64)
    by (bit_vector)
    requires
        n != 0,
    ensures
        x & ((n - 1) as u64) < n,
{
}

/// The number of items held by a ring buffer whose take counter is `head` and put counter is
/// `tail`, both modulo 2^64.
pub open spec fn ring_count(head: u64, tail: u64) -> u64 {
    wrapping_sub(tail, head)
}

/// The slot, among `n`, of the item put as number `k` (modulo 2^64).
pub open spec fn ring_slot(k: u64, n: u64) -> int {
    (k & ((n - 1) as u64)) as int
}

impl<T: Copy + Default, const N: usize> RingBuffer<T, N> {
    /// The buffer's invariant: `N` is a power of two, there are `N` slots, and at most `N`
    /// items are held.
    #[verifier::type_invariant]
    closed spec fn inv(&self) -> bool {
        &&& N <= u64::MAX
        &&& is_power_of_two(N as u64)
        &&& self.slots@.len() == N
        &&& ring_count(self.head, self.tail) <= N
    }
}

impl<T: Copy + Default, const N: usize> View for RingBuffer<T, N> {
    type V = Seq<T>;

    /// The items held, oldest first.
    closed spec fn view(&self) -> Seq<T> {
        Seq::new(
            ring_count(self.head, self.tail) as nat,
            |i: int| self.slots@[ring_slot((self.head + i) as u64, N as u64)],
        )
    }
}

/// `tail - head` modulo 2^64.
pub fn counter_distance(head: u64, tail: u64) -> (r: u64)
    ensures
        r == wrapping_sub(tail, head),
    no_unwind
{
    if tail >= head {
        tail - head
    } else {
        (u64::MAX - head) + tail + 1
    }
}

/// `k + 1` modulo 2^64.
fn counter_next(k: u64) -> (r: u64)
    ensures
        r == wrapping_add(k, 1),
    no_unwind
{
    if k == u64::MAX {
        0
    } else {
        k + 1
    }
}

impl<T: Copy + Default, const N: usize> RingBuffer<T, N> {
    /// The producer's decision, from its own put counter `tail` and a reading `head` of the
    /// take counter: `None` when the buffer is full; otherwise the slot to write and the put
    /// counter to publish once it is written. That slot is none of the slots that hold the
    /// items counted between `head` and `tail`.
    pub fn push_step(head: u64, tail: u64) -> (r: Option<(usize, u64)>)
        requires
            N <= u64::MAX,
            is_power_of_two(N as u64),
        ensures
            r is None <==> ring_count(head, tail) >= N,
            r matches Some((idx, new_tail)) ==> {
                &&& idx as int == ring_slot(tail, N as u64)
                &&& idx < N
                &&& new_tail == wrapping_add(tail, 1)
                &&& ring_count(head, new_tail) == ring_count(head, tail) + 1
                &&& forall|i: int|
                    0 <= i < ring_count(head, tail) ==> #[trigger] ring_slot(
                        (head + i) as u64,
                        N as u64,
                    ) != idx as int
            },
        no_unwind
    {
        if counter_distance(head, tail) >= N as u64 {
            return None;
        }
        let mask: u64 = N as u64 - 1;
        proof {
            lemma_mask_below(tail, N as u64);
            lemma_count_after_push(head, tail, N as u64);
            lemma_tail_from_head(head, tail);
            let c = ring_count(head, tail);
            assert forall|i: int| 0 <= i < c implies #[trigger] ring_slot(
                (head + i) as u64,
                N as u64,
            ) != ring_slot(tail, N as u64) by {
                lemma_slots_differ(head, i as u64, c, N as u64);
            }
        }
        Some(((tail & mask) as usize, counter_next(tail)))
    }

    /// The consumer's decision, from its own take counter `head` and a reading `tail` of the
    /// put counter: `None` when the buffer is empty; otherwise the slot to read, which holds
    /// the oldest item, and the take counter to publish once it is read.
    pub fn pop_step(head: u64, tail: u64) -> (r: Option<(usize, u64)>)
        requires
            N <= u64::MAX,
            is_power_of_two(N as u64),
        ensures
            r is None <==> ring_count(head, tail) == 0,
            r matches Some((idx, new_head)) ==> {
                &&& idx as int == ring_slot(head, N as u64)
                &&& idx < N
                &&& new_head == wrapping_add(head, 1)
                &&& ring_count(new_head, tail) == ring_count(head, tail) - 1
                &&& forall|i: int|
                    0 <= i < ring_count(new_head, tail) ==> #[trigger] ((new_head + i) as u64) == (
                    head + (i + 1)) as u64
            },
        no_unwind
    {
        proof {
            lemma_tail_from_head(head, tail);
        }
        if head == tail {
            return None;
        }
        let mask: u64 = N as u64 - 1;
        proof {
            lemma_mask_below(head, N as u64);
            lemma_count_after_pop(head, tail);
            assert forall|i: int| 0 <= i < ring_count(wrapping_add(head, 1), tail) implies #[trigger] ((
            wrapping_add(head, 1) + i) as u64) == (head + (i + 1)) as u64 by {
                lemma_position_after_pop(head, i as u64);
            }
        }
        Some(((head & mask) as usize, counter_next(head)))
    }

    /// Create a new, empty ring buffer. `N` must be a power of two.
    pub fn new() -> (r: Self)
        requires
            N <= u64::MAX,
            is_power_of_two(N as u64),
        ensures
            r@ == Seq::<T>::empty(),
    {
        let mut slots: Vec<T> = Vec::new();
        let mut i: usize = 0;
        while i < N
            invariant
                i <= N,
                slots@.len() == i,
            decreases N - i,
        {
            slots.push(T::default());
            i = i + 1;
        }
        let r = RingBuffer { head: 0, tail: 0, slots };
        assert(r@ =~= Seq::<T>::empty());
        r
    }

    /// Push at the back. Returns false, and leaves the buffer as it was, if it is full.
    pub fn push(&mut self, val: T) -> (r: bool)
        ensures
            (final(self)@, r) == queue_push(old(self)@, N as nat, val),
        no_unwind
    {
        proof {
            use_type_invariant(&*self);
        }
        let head = self.head;
        let tail = self.tail;
        match Self::push_step(head, tail) {
            None => false,
            Some((idx, new_tail)) => {
                let ghost old_view = self@;
                self.slots[idx] = val;
                self.tail = new_tail;
                proof {
                    lemma_tail_from_head(head, tail);
                    assert forall|i: int| 0 <= i < old_view.len() implies #[trigger] self@[i]
                        == old_view[i] by {
                        lemma_mask_below((head + i) as u64, N as u64);
                        assert(ring_slot((head + i) as u64, N as u64) != idx as int);
                    }
                    assert(self@ =~= old_view.push(val));
                }
                true
            },
        }
    }

    /// Pop from the front. Returns None, and leaves the buffer as it was, if it is empty.
    pub fn pop(&mut self) -> (r: Option<T>)
        ensures
            (final(self)@, r) == queue_pop(old(self)@),
        no_unwind
    {
        proof {
            use_type_invariant(&*self);
        }
        let head = self.head;
        let tail = self.tail;
        match Self::pop_step(head, tail) {
            None => {
                assert(self@ =~= Seq::<T>::empty());
                None
            },
            Some((idx, new_head)) => {
                let ghost old_view = self@;
                proof {
                    assert((head + 0) as u64 == head);
                }
                let val = self.slots[idx];
                self.head = new_head;
                proof {
                    assert forall|i: int| 0 <= i < self@.len() implies #[trigger] self@[i]
                        == old_view[i + 1] by {
                        assert(((new_head + i) as u64) == (head + (i + 1)) as u64);
                    }
                    assert(self@ =~= old_view.drop_first());
                }
                Some(val)
            },
        }
    }

    /// Length (number of occupied slots).
    pub fn len(&self) -> (r: usize)
        ensures
            r == self@.len(),
            r <= N,
    {
        proof {
            use_type_invariant(self);
        }
        counter_distance(self.head, self.tail) as usize
    }

    /// Capacity.
    pub fn capacity(&self) -> (r: usize)
        ensures
            r == N,
    {
        N
    }

    /// True if empty.
    pub fn is_empty(&self) -> (r: bool)
        ensures
            r == (self@.len() == 0),
    {
        self.len() == 0
    }
}

} // verus!
