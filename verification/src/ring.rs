//! A ring of the most recent samples.
//!
//! The ring has a fixed capacity and never refuses a write: new samples push
//! the oldest ones out. Its model is the window it holds, oldest sample first;
//! beside it stand the store, slot by slot, and the write head.

use vstd::prelude::*;

verus! {

/// The window that follows `window` once `block` has been written behind it:
/// the newest `window.len()` samples of the two laid end to end.
pub open spec fn written<T>(window: Seq<T>, block: Seq<T>) -> Seq<T> {
    (window + block).subrange(block.len() as int, (window.len() + block.len()) as int)
}

/// The number of samples of `block` that a ring holding `window` keeps: all of
/// them, or as many as the ring holds.
pub open spec fn kept_len<T>(window: Seq<T>, block: Seq<T>) -> int {
    if block.len() <= window.len() {
        block.len() as int
    } else {
        window.len() as int
    }
}

/// The window after each block of `blocks` has been written in turn.
pub open spec fn written_all<T>(window: Seq<T>, blocks: Seq<Seq<T>>) -> Seq<T>
    decreases blocks.len(),
{
    if blocks.len() == 0 {
        window
    } else {
        written(written_all(window, blocks.drop_last()), blocks.last())
    }
}

/// All the samples of `blocks`, in the order of their arrival.
pub open spec fn joined<T>(blocks: Seq<Seq<T>>) -> Seq<T>
    decreases blocks.len(),
{
    if blocks.len() == 0 {
        Seq::empty()
    } else {
        joined(blocks.drop_last()) + blocks.last()
    }
}

/// The storage `buffer` read from index `head` to its end and then from its
/// start up to `head`.
pub open spec fn unrolled<T>(buffer: Seq<T>, head: int) -> Seq<T> {
    buffer.subrange(head, buffer.len() as int) + buffer.subrange(0, head)
}

/// The number of slots from the head `head` forward to slot `k`, round the end
/// of a store of `capacity` slots.
pub open spec fn ahead(k: int, head: int, capacity: int) -> int {
    if k >= head {
        k - head
    } else {
        k - head + capacity
    }
}

/// The store after `block` has been written at the head `head`: the samples
/// kept stand in the slots from the head on, in their order and round the end
/// of the store; every other slot holds what it held.
pub open spec fn stored<T>(store: Seq<T>, head: int, block: Seq<T>) -> Seq<T> {
    Seq::new(
        store.len(),
        |k: int|
            if ahead(k, head, store.len() as int) < kept_len(store, block) {
                block[block.len() - kept_len(store, block) + ahead(k, head, store.len() as int)]
            } else {
                store[k]
            },
    )
}

/// A fixed-capacity circular store of samples with a write head.
#[allow(non_camel_case_types)]
pub struct ringbuffer<T> {
    buffer: Vec<T>,
    soundhead: usize,
}

impl<T> ringbuffer<T> {
    #[verifier::type_invariant]
    spec fn inv(self) -> bool {
        self.soundhead < self.buffer.len()
    }

    /// The window held: `capacity` samples, oldest first.
    pub closed spec fn view(&self) -> Seq<T> {
        unrolled(self.buffer@, self.soundhead as int)
    }

    /// The index of the slot that the next sample goes to.
    pub closed spec fn head(&self) -> int {
        self.soundhead as int
    }

    /// The store, slot by slot.
    pub closed spec fn store(&self) -> Seq<T> {
        self.buffer@
    }

    /// The head lies within the store, and the window is the store read from
    /// the head round to the head.
    pub open spec fn wf(&self) -> bool {
        &&& 0 <= self.head() < self.store().len()
        &&& self@ == unrolled(self.store(), self.head())
    }
}

impl<T: Copy> ringbuffer<T> {
    /// A ring of `capacity` samples, each equal to `fill`, with its head at 0.
    pub fn new(capacity: usize, fill: T) -> (ring: Self)
        requires
            capacity > 0,
        ensures
            ring@ == Seq::new(capacity as nat, |i: int| fill),
            ring.store() == Seq::new(capacity as nat, |i: int| fill),
            ring.head() == 0,
            ring.wf(),
    {
        let mut buffer: Vec<T> = Vec::new();
        let mut i: usize = 0;
        while i < capacity
            invariant
                i <= capacity,
                buffer@ == Seq::new(i as nat, |k: int| fill),
            decreases capacity - i,
        {
            buffer.push(fill);
            i += 1;
            assert(buffer@ =~= Seq::new(i as nat, |k: int| fill));
        }
        let ring = ringbuffer { buffer, soundhead: 0 };
        assert(ring@ =~= Seq::new(capacity as nat, |i: int| fill));
        ring
    }

    /// The number of samples that the ring holds.
    pub fn capacity(&self) -> (n: usize)
        ensures
            n == self@.len(),
            n == self.store().len(),
            n > 0,
            self.wf(),
    {
        proof {
            use_type_invariant(self);
        }
        self.buffer.len()
    }

    /// Writes `samples` behind the window. Of a block longer than the ring only
    /// the last `capacity` samples are kept. They go into the slots from the
    /// head on, round the end of the store; the head moves forward by the
    /// number of samples kept and wraps at the end of the store.
    pub fn write(&mut self, samples: &[T])
        ensures
            final(self)@ == written(old(self)@, samples@),
            final(self)@.len() == old(self)@.len(),
            final(self).store() == stored(old(self).store(), old(self).head(), samples@),
            final(self).head() == (old(self).head() + kept_len(old(self)@, samples@)) % (
            old(self)@.len() as int),
            old(self).wf(),
            final(self).wf(),
    {
        proof {
            use_type_invariant(&*self);
        }
        let capacity = self.buffer.len();
        let n = samples.len();
        let skip: usize = if n > capacity { n - capacity } else { 0 };
        let mut head: usize = self.soundhead;
        let mut i: usize = skip;
        let ghost before = self@;
        let ghost start = self.soundhead as int;
        let ghost slots = self.buffer@;
        proof {
            assert(written(before, samples@.subrange(skip as int, skip as int)) =~= before);
            vstd::arithmetic::div_mod::lemma_small_mod(start as nat, capacity as nat);
        }
        while i < n
            invariant
                skip <= i <= n,
                n == samples@.len(),
                n - skip <= capacity,
                capacity == self.buffer.len(),
                capacity == before.len(),
                head < capacity,
                0 <= start < capacity,
                head as int == (start + (i - skip)) % (capacity as int),
                head as int == if start + (i - skip) < capacity {
                    start + (i - skip)
                } else {
                    start + (i - skip) - capacity
                },
                self.soundhead < capacity,
                slots.len() == capacity,
                forall|k: int|
                    0 <= k < capacity ==> #[trigger] self.buffer@[k] == if ahead(
                        k,
                        start,
                        capacity as int,
                    ) < i - skip {
                        samples@[skip + ahead(k, start, capacity as int)]
                    } else {
                        slots[k]
                    },
                unrolled(self.buffer@, head as int) == written(
                    before,
                    samples@.subrange(skip as int, i as int),
                ),
            decreases n - i,
        {
            let ghost store = self.buffer@;
            let ghost kept = samples@.subrange(skip as int, i as int);
            let x = samples[i];
            self.buffer[head] = x;
            let next: usize = if head + 1 == capacity { 0 } else { head + 1 };
            proof {
                let grown = samples@.subrange(skip as int, i + 1);
                assert(grown =~= kept.push(x));
                assert(written(before, grown) =~= written(before, kept).drop_first().push(x));
                assert(unrolled(self.buffer@, next as int) =~= unrolled(
                    store,
                    head as int,
                ).drop_first().push(x));
                lemma_step_mod(start + (i - skip), capacity as int);
            }
            head = next;
            i += 1;
        }
        self.soundhead = head;
        proof {
            assert(self.buffer@ =~= stored(slots, start, samples@));
            if n <= capacity {
                assert(samples@.subrange(0, n as int) =~= samples@);
            } else {
                lemma_long_block(before, samples@);
                assert(n - skip == capacity);
                vstd::arithmetic::div_mod::lemma_mod_add_multiples_vanish(start, capacity as int);
                vstd::arithmetic::div_mod::lemma_small_mod(start as nat, capacity as nat);
            }
        }
    }

    /// The window held, oldest sample first: the store from the head to its
    /// end, then from its start up to the head.
    pub fn read_linearized(&self) -> (window: Vec<T>)
        ensures
            window@ == self@,
            self.wf(),
    {
        proof {
            use_type_invariant(self);
        }
        let capacity = self.buffer.len();
        let mut window: Vec<T> = Vec::with_capacity(capacity);
        let mut i: usize = self.soundhead;
        while i < capacity
            invariant
                self.soundhead <= i <= capacity,
                capacity == self.buffer.len(),
                window@ == self.buffer@.subrange(self.soundhead as int, i as int),
            decreases capacity - i,
        {
            window.push(self.buffer[i]);
            i += 1;
            assert(window@ =~= self.buffer@.subrange(self.soundhead as int, i as int));
        }
        let mut j: usize = 0;
        while j < self.soundhead
            invariant
                j <= self.soundhead < capacity,
                capacity == self.buffer.len(),
                window@ == self.buffer@.subrange(self.soundhead as int, capacity as int)
                    + self.buffer@.subrange(0, j as int),
            decreases self.soundhead - j,
        {
            window.push(self.buffer[j]);
            j += 1;
            assert(window@ =~= self.buffer@.subrange(self.soundhead as int, capacity as int)
                + self.buffer@.subrange(0, j as int));
        }
        window
    }

    /// Takes one block from the capture side: writes it as `write` does and
    /// hands back the window as it then stands, for the analysis to work on.
    pub fn audio_callback(&mut self, input: &[T]) -> (window: Vec<T>)
        ensures
            final(self)@ == written(old(self)@, input@),
            final(self)@.len() == old(self)@.len(),
            final(self).store() == stored(old(self).store(), old(self).head(), input@),
            final(self).head() == (old(self).head() + kept_len(old(self)@, input@)) % (
            old(self)@.len() as int),
            old(self).wf(),
            final(self).wf(),
            window@ == final(self)@,
    {
        self.write(input);
        self.read_linearized()
    }
}

proof fn lemma_step_mod(a: int, m: int)
    requires
        a >= 0,
        m > 0,
    ensures
        (a + 1) % m == if a % m + 1 == m { 0 } else { a % m + 1 },
{
    vstd::arithmetic::div_mod::lemma_fundamental_div_mod(a, m);
    vstd::arithmetic::div_mod::lemma_mod_pos_bound(a, m);
    let q = a / m;
    let r = a % m;
    if r + 1 == m {
        assert(a + 1 == (q + 1) * m + 0) by (nonlinear_arith)
            requires a == m * q + r, r + 1 == m;
        vstd::arithmetic::div_mod::lemma_fundamental_div_mod_converse(a + 1, m, q + 1, 0);
    } else {
        assert(a + 1 == q * m + (r + 1)) by (nonlinear_arith)
            requires a == m * q + r;
        vstd::arithmetic::div_mod::lemma_fundamental_div_mod_converse(a + 1, m, q, r + 1);
    }
}

/// Writing a block longer than the window leaves what writing only its last
/// `window.len()` samples leaves.
pub proof fn lemma_long_block<T>(window: Seq<T>, block: Seq<T>)
    requires
        block.len() > window.len(),
    ensures
        written(window, block) == written(
            window,
            block.subrange(block.len() - window.len(), block.len() as int),
        ),
{
    let tail = block.subrange(block.len() - window.len(), block.len() as int);
    assert(written(window, block) =~= written(window, tail));
}

/// A block longer than the store leaves the store and the head that its last
/// `store.len()` samples leave: every slot is written, and the head comes
/// round to where it was.
pub proof fn lemma_long_block_store<T>(store: Seq<T>, head: int, block: Seq<T>)
    requires
        0 <= head < store.len(),
        block.len() > store.len(),
    ensures
        stored(store, head, block) == stored(
            store,
            head,
            block.subrange(block.len() - store.len(), block.len() as int),
        ),
        kept_len(store, block) == kept_len(
            store,
            block.subrange(block.len() - store.len(), block.len() as int),
        ),
        (head + kept_len(store, block)) % (store.len() as int) == head,
{
    let tail = block.subrange(block.len() - store.len(), block.len() as int);
    assert(stored(store, head, block) =~= stored(store, head, tail));
    vstd::arithmetic::div_mod::lemma_mod_add_multiples_vanish(head, store.len() as int);
    vstd::arithmetic::div_mod::lemma_small_mod(head as nat, store.len());
}

/// Where a block goes: sample `i` of a block no longer than the store stands
/// in slot `(head + i) % capacity`, and a slot that no sample went to holds
/// what it held.
pub proof fn lemma_sample_slots<T>(store: Seq<T>, head: int, block: Seq<T>)
    requires
        0 <= head < store.len(),
        block.len() <= store.len(),
    ensures
        stored(store, head, block).len() == store.len(),
        forall|i: int|
            0 <= i < block.len() ==> stored(store, head, block)[(head + i) % (
            store.len() as int)] == #[trigger] block[i],
        forall|k: int|
            0 <= k < store.len() && ahead(k, head, store.len() as int) >= block.len()
                ==> #[trigger] stored(store, head, block)[k] == store[k],
{
    let capacity = store.len() as int;
    assert forall|i: int| 0 <= i < block.len() implies stored(store, head, block)[(head + i)
        % capacity] == #[trigger] block[i] by {
        if head + i < capacity {
            vstd::arithmetic::div_mod::lemma_small_mod((head + i) as nat, capacity as nat);
        } else {
            vstd::arithmetic::div_mod::lemma_mod_add_multiples_vanish(
                head + i - capacity,
                capacity,
            );
            vstd::arithmetic::div_mod::lemma_small_mod(
                (head + i - capacity) as nat,
                capacity as nat,
            );
        }
    }
}

/// Writing `first` and then `second` leaves what writing the two as one block
/// leaves.
pub proof fn lemma_written_twice<T>(window: Seq<T>, first: Seq<T>, second: Seq<T>)
    ensures
        written(written(window, first), second) == written(window, first + second),
{
    assert(written(written(window, first), second) =~= written(window, first + second));
}

/// After any run of writes the ring holds the newest samples of the old window
/// and everything written since; once the writes amount to a full window, it
/// holds exactly the last `capacity` samples written, in the order of arrival.
pub proof fn lemma_writes_keep_latest<T>(window: Seq<T>, blocks: Seq<Seq<T>>)
    ensures
        written_all(window, blocks) == written(window, joined(blocks)),
        joined(blocks).len() >= window.len() ==> written_all(window, blocks) == joined(
            blocks,
        ).subrange(joined(blocks).len() - window.len(), joined(blocks).len() as int),
    decreases blocks.len(),
{
    if blocks.len() == 0 {
        assert(written(window, joined(blocks)) =~= window);
    } else {
        lemma_writes_keep_latest(window, blocks.drop_last());
        lemma_written_twice(window, joined(blocks.drop_last()), blocks.last());
    }
    let all = joined(blocks);
    if all.len() >= window.len() {
        assert(written(window, all) =~= all.subrange(all.len() - window.len(), all.len() as int));
    }
}

} // verus!
