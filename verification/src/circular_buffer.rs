//! A bounded history that overwrites its oldest value when it is full,
//! hands out its newest values, and can be given another number of slots
//! without losing the newest of what it holds.
//!
//! A buffer is a ring of slots. What it holds is modelled as a sequence,
//! oldest value first; the contracts say what each operation does to that
//! sequence and to the slots.

use vstd::prelude::*;

verus! {

/// Why an operation on a [`CircularBuffer`] was rejected.
#[derive(Debug, Clone, Copy, PartialEq, Eq, Structural)]
pub enum BufferError {
    /// A capacity of zero was asked for.
    InvalidCapacity,
    /// More samples were asked for than the buffer holds.
    RequestExceedsAvailable,
}

/// The slot reached from slot `start` after `steps` steps round a ring of
/// `capacity` slots.
pub open spec fn ring_index(start: int, steps: int, capacity: int) -> int {
    (start + steps) % capacity
}

/// The number of steps round a ring of `capacity` slots that lead from slot
/// `tail` to `slot`.
pub open spec fn ring_age(slot: int, tail: int, capacity: int) -> int {
    (slot - tail) % capacity
}

/// The slots of a ring of `capacity` slots whose oldest value sits in slot
/// `tail` and which holds `content`, oldest first: the values lie in
/// consecutive slots from `tail` on, wrapping round the end, and every other
/// slot is empty.
pub open spec fn ring_slots<T>(content: Seq<T>, tail: int, capacity: int) -> Seq<Option<T>> {
    Seq::new(
        capacity as nat,
        |slot: int|
            {
                let age = ring_age(slot, tail, capacity);
                if age < content.len() {
                    Some(content[age])
                } else {
                    None
                }
            },
    )
}

/// What a buffer of `capacity` slots holds after `value` is pushed onto
/// `content`: the value is appended, and the oldest one gives way if the
/// buffer was full.
pub open spec fn pushed<T>(content: Seq<T>, capacity: int, value: T) -> Seq<T> {
    if content.len() >= capacity {
        content.drop_first().push(value)
    } else {
        content.push(value)
    }
}

/// Where the oldest value sits after a push into a buffer of `capacity`
/// slots that held `count` values from slot `tail` on: one slot further if
/// the buffer was full, else where it sat.
pub open spec fn pushed_tail(tail: int, count: int, capacity: int) -> int {
    if count >= capacity {
        ring_index(tail, 1, capacity)
    } else {
        tail
    }
}

/// What a buffer of `capacity` slots holds after the `values` are pushed
/// onto `content` one by one, the first of them first.
pub open spec fn pushed_all<T>(content: Seq<T>, capacity: int, values: Seq<T>) -> Seq<T>
    decreases values.len(),
{
    if values.len() == 0 {
        content
    } else {
        pushed(pushed_all(content, capacity, values.drop_last()), capacity, values.last())
    }
}

/// The `n` newest values of `content`, oldest first.
pub open spec fn latest<T>(content: Seq<T>, n: int) -> Seq<T> {
    content.subrange(content.len() - n, content.len() as int)
}

/// What of `content` a buffer of `capacity` slots can keep: all of it if it
/// fits, else the newest `capacity` values.
pub open spec fn retained<T>(content: Seq<T>, capacity: int) -> Seq<T> {
    if content.len() <= capacity {
        content
    } else {
        latest(content, capacity)
    }
}

/// `copies` holds, position by position, a clone of each of the `values`.
pub open spec fn clones_of<T: Clone>(values: Seq<T>, copies: Seq<T>) -> bool {
    &&& copies.len() == values.len()
    &&& forall|i: int| 0 <= i < values.len() ==> cloned::<T>(#[trigger] values[i], copies[i])
}

/// Within one turn of the ring, stepping wraps round at most once.
pub proof fn lemma_ring_index(capacity: int)
    requires
        capacity > 0,
    ensures
        forall|start: int, steps: int|
            0 <= start < capacity && 0 <= steps <= capacity ==> #[trigger] ring_index(
                start,
                steps,
                capacity,
            ) == if start + steps < capacity {
                start + steps
            } else {
                start + steps - capacity
            },
{
    assert forall|start: int, steps: int|
        0 <= start < capacity && 0 <= steps <= capacity implies #[trigger] ring_index(
        start,
        steps,
        capacity,
    ) == if start + steps < capacity {
        start + steps
    } else {
        start + steps - capacity
    } by {
        if start + steps < capacity {
            vstd::arithmetic::div_mod::lemma_small_mod((start + steps) as nat, capacity as nat);
        } else {
            vstd::arithmetic::div_mod::lemma_mod_sub_multiples_vanish(start + steps, capacity);
            vstd::arithmetic::div_mod::lemma_small_mod(
                (start + steps - capacity) as nat,
                capacity as nat,
            );
        }
    }
}

/// The way from one slot to another wraps round at most once.
pub proof fn lemma_ring_age(capacity: int)
    requires
        capacity > 0,
    ensures
        forall|slot: int, tail: int|
            0 <= slot < capacity && 0 <= tail < capacity ==> #[trigger] ring_age(
                slot,
                tail,
                capacity,
            ) == if slot >= tail {
                slot - tail
            } else {
                slot - tail + capacity
            },
{
    assert forall|slot: int, tail: int|
        0 <= slot < capacity && 0 <= tail < capacity implies #[trigger] ring_age(
        slot,
        tail,
        capacity,
    ) == if slot >= tail {
        slot - tail
    } else {
        slot - tail + capacity
    } by {
        if slot >= tail {
            vstd::arithmetic::div_mod::lemma_small_mod((slot - tail) as nat, capacity as nat);
        } else {
            vstd::arithmetic::div_mod::lemma_mod_add_multiples_vanish(slot - tail, capacity);
            vstd::arithmetic::div_mod::lemma_small_mod(
                (slot - tail + capacity) as nat,
                capacity as nat,
            );
        }
    }
}

/// The value of a given age lies in the slot that many steps after the
/// oldest one.
pub proof fn lemma_slot_of_age<T>(content: Seq<T>, tail: int, capacity: int, age: int)
    requires
        0 <= tail < capacity,
        content.len() <= capacity,
        0 <= age < content.len(),
    ensures
        0 <= ring_index(tail, age, capacity) < capacity,
        ring_slots(content, tail, capacity)[ring_index(tail, age, capacity)] == Some(content[age]),
{
    lemma_ring_index(capacity);
    lemma_ring_age(capacity);
}

/// Appending a value to a ring that has room writes the slot after the
/// newest value and no other.
pub proof fn lemma_slots_after_append<T>(content: Seq<T>, tail: int, capacity: int, value: T)
    requires
        0 <= tail < capacity,
        content.len() < capacity,
    ensures
        ring_slots(content.push(value), tail, capacity) == ring_slots(
            content,
            tail,
            capacity,
        ).update(ring_index(tail, content.len() as int, capacity), Some(value)),
{
    lemma_ring_index(capacity);
    lemma_ring_age(capacity);
    let head = ring_index(tail, content.len() as int, capacity);
    let before = ring_slots(content, tail, capacity);
    let after = ring_slots(content.push(value), tail, capacity);
    assert forall|slot: int| 0 <= slot < capacity implies after[slot] == before.update(
        head,
        Some(value),
    )[slot] by {
        let age = ring_age(slot, tail, capacity);
        if slot == head {
            assert(age == content.len());
        } else {
            assert(age != content.len());
        }
    }
    assert(after =~= before.update(head, Some(value)));
}

/// Appending a value to a full ring writes the slot of the oldest value,
/// and the next slot then holds the oldest one.
pub proof fn lemma_slots_after_overwrite<T>(content: Seq<T>, tail: int, capacity: int, value: T)
    requires
        0 <= tail < capacity,
        content.len() == capacity,
    ensures
        ring_slots(content.drop_first().push(value), ring_index(tail, 1, capacity), capacity)
            == ring_slots(content, tail, capacity).update(tail, Some(value)),
{
    lemma_ring_index(capacity);
    lemma_ring_age(capacity);
    let next = ring_index(tail, 1, capacity);
    let before = ring_slots(content, tail, capacity);
    let after = ring_slots(content.drop_first().push(value), next, capacity);
    assert forall|slot: int| 0 <= slot < capacity implies after[slot] == before.update(
        tail,
        Some(value),
    )[slot] by {
        let age = ring_age(slot, tail, capacity);
        let shifted = ring_age(slot, next, capacity);
        if slot == tail {
            assert(shifted == capacity - 1);
        } else {
            assert(shifted == age - 1);
        }
    }
    assert(after =~= before.update(tail, Some(value)));
}

/// Taking the oldest value out empties its slot and no other, and the next
/// slot then holds the oldest one.
pub proof fn lemma_slots_after_removal<T>(content: Seq<T>, tail: int, capacity: int)
    requires
        0 <= tail < capacity,
        0 < content.len() <= capacity,
    ensures
        ring_slots(content.drop_first(), ring_index(tail, 1, capacity), capacity) == ring_slots(
            content,
            tail,
            capacity,
        ).update(tail, None),
{
    lemma_ring_index(capacity);
    lemma_ring_age(capacity);
    let next = ring_index(tail, 1, capacity);
    let before = ring_slots(content, tail, capacity);
    let after = ring_slots(content.drop_first(), next, capacity);
    assert forall|slot: int| 0 <= slot < capacity implies after[slot] == before.update(
        tail,
        None,
    )[slot] by {
        let age = ring_age(slot, tail, capacity);
        let shifted = ring_age(slot, next, capacity);
        if slot == tail {
            assert(shifted == capacity - 1);
        } else {
            assert(shifted == age - 1);
        }
    }
    assert(after =~= before.update(tail, None));
}

/// A bounded history of values: once it is full, each new value takes the
/// place of the oldest one.
pub struct CircularBuffer<T> {
    buffer: Vec<Option<T>>,
    /// Slot that the next value is written to.
    head: usize,
    /// Slot of the oldest value.
    tail: usize,
    /// Number of values held.
    size: usize,
    /// Number of slots.
    capacity: usize,
}

impl<T> View for CircularBuffer<T> {
    type V = Seq<T>;

    /// The values held, oldest first.
    closed spec fn view(&self) -> Seq<T> {
        Seq::new(
            self.size as nat,
            |age: int| self.buffer@[ring_index(self.tail as int, age, self.capacity as int)]->0,
        )
    }
}

impl<T> CircularBuffer<T> {
    /// Whether the indices and the slots agree with what the buffer holds:
    /// true of every buffer that [`CircularBuffer::new`] made, whatever was
    /// done to it since.
    pub closed spec fn well_formed(&self) -> bool {
        &&& self.capacity >= 1
        &&& self.buffer@.len() == self.capacity
        &&& self.size <= self.capacity
        &&& self.tail < self.capacity
        &&& self.head == ring_index(self.tail as int, self.size as int, self.capacity as int)
        &&& self.buffer@ == ring_slots(self@, self.tail as int, self.capacity as int)
    }

    /// The number of slots.
    pub closed spec fn spec_capacity(&self) -> int {
        self.capacity as int
    }

    /// The slot of the oldest value; where the buffer is empty, the slot that
    /// the next value is written to.
    pub closed spec fn spec_tail(&self) -> int {
        self.tail as int
    }

    /// The slot that the next value is written to.
    pub open spec fn spec_head(&self) -> int {
        ring_index(self.spec_tail(), self@.len() as int, self.spec_capacity())
    }

    /// The slots, each empty or holding a value.
    pub open spec fn spec_buffer(&self) -> Seq<Option<T>> {
        ring_slots(self@, self.spec_tail(), self.spec_capacity())
    }

    /// A well-formed buffer has at least one slot, holds no more values than
    /// it has slots, and keeps its indices among its slots.
    pub proof fn lemma_bounds(self)
        requires
            self.well_formed(),
        ensures
            self.spec_capacity() >= 1,
            self@.len() <= self.spec_capacity(),
            0 <= self.spec_tail() < self.spec_capacity(),
            0 <= self.spec_head() < self.spec_capacity(),
    {
        lemma_ring_index(self.capacity as int);
    }

    /// The buffer holds `content` if its slots are those of a ring that
    /// holds `content`.
    proof fn lemma_holds(self, content: Seq<T>)
        requires
            self.capacity >= 1,
            self.tail < self.capacity,
            self.size <= self.capacity,
            content.len() == self.size,
            self.buffer@ == ring_slots(content, self.tail as int, self.capacity as int),
        ensures
            self@ == content,
    {
        assert forall|age: int| 0 <= age < content.len() implies self@[age] == content[age] by {
            lemma_slot_of_age(content, self.tail as int, self.capacity as int, age);
        }
        assert(self@ =~= content);
    }
}

/// The slot `steps` steps after `start`, computed without leaving `usize`.
fn ring_step(start: usize, steps: usize, capacity: usize) -> (slot: usize)
    requires
        start < capacity,
        steps <= capacity,
    ensures
        slot == ring_index(start as int, steps as int, capacity as int),
        slot < capacity,
{
    proof {
        lemma_ring_index(capacity as int);
    }
    if steps >= capacity - start {
        steps - (capacity - start)
    } else {
        start + steps
    }
}

impl<T: Clone> CircularBuffer<T> {
    /// An empty buffer of `capacity` slots; none can be made without a slot.
    pub fn new(capacity: usize) -> (made: Result<CircularBuffer<T>, BufferError>)
        ensures
            capacity == 0 ==> made == Err::<CircularBuffer<T>, BufferError>(
                BufferError::InvalidCapacity,
            ),
            capacity > 0 ==> {
                &&& made is Ok
                &&& made->Ok_0.well_formed()
                &&& made->Ok_0@ == Seq::<T>::empty()
                &&& made->Ok_0.spec_capacity() == capacity
                &&& made->Ok_0.spec_tail() == 0
                &&& made->Ok_0.spec_head() == 0
                &&& made->Ok_0.spec_buffer() == Seq::new(capacity as nat, |slot: int| None::<T>)
            },
    {
        if capacity == 0 {
            return Err(BufferError::InvalidCapacity);
        }
        let mut buffer: Vec<Option<T>> = Vec::new();
        while buffer.len() < capacity
            invariant
                buffer@.len() <= capacity,
                forall|slot: int| 0 <= slot < buffer@.len() ==> buffer@[slot] is None,
            decreases capacity - buffer@.len(),
        {
            buffer.push(None);
        }
        let made = CircularBuffer { buffer, head: 0, tail: 0, size: 0, capacity };
        proof {
            assert(ring_index(0, 0, capacity as int) == 0) by {
                lemma_ring_index(capacity as int);
            }
            assert(made@ =~= Seq::<T>::empty());
            assert(made.buffer@ =~= ring_slots(Seq::<T>::empty(), 0, capacity as int));
            assert(made.buffer@ =~= Seq::new(capacity as nat, |slot: int| None::<T>));
        }
        Ok(made)
    }

    /// The number of slots.
    pub fn capacity(&self) -> (capacity: usize)
        ensures
            capacity == self.spec_capacity(),
    {
        self.capacity
    }

    /// The number of values held.
    pub fn size(&self) -> (size: usize)
        ensures
            size == self@.len(),
    {
        self.size
    }

    /// The slots as they lie in memory.
    pub fn buffer(&self) -> (slots: &Vec<Option<T>>)
        requires
            self.well_formed(),
        ensures
            slots@ == self.spec_buffer(),
    {
        &self.buffer
    }

    /// Whether every slot holds a value.
    pub fn is_full(&self) -> (full: bool)
        ensures
            full == (self@.len() == self.spec_capacity()),
    {
        self.size == self.capacity
    }

    /// Whether no slot holds a value.
    pub fn is_empty(&self) -> (empty: bool)
        ensures
            empty == (self@.len() == 0),
    {
        self.size == 0
    }

    /// Appends `value` as the newest one. A full buffer makes room by
    /// giving up its oldest value, which is lost.
    pub fn push(&mut self, value: T)
        requires
            old(self).well_formed(),
        ensures
            final(self).well_formed(),
            final(self)@ == pushed(old(self)@, old(self).spec_capacity(), value),
            final(self).spec_capacity() == old(self).spec_capacity(),
            final(self).spec_tail() == pushed_tail(
                old(self).spec_tail(),
                old(self)@.len() as int,
                old(self).spec_capacity(),
            ),
            final(self).spec_head() == ring_index(
                old(self).spec_head(),
                1,
                old(self).spec_capacity(),
            ),
            final(self).spec_buffer() == old(self).spec_buffer().update(
                old(self).spec_head(),
                Some(value),
            ),
    {
        let ghost held = self@;
        let ghost tail = self.tail as int;
        let ghost capacity = self.capacity as int;
        self.buffer.set(self.head, Some(value));
        self.head = ring_step(self.head, 1, self.capacity);
        if self.is_full() {
            self.tail = ring_step(self.tail, 1, self.capacity);
            proof {
                assert(ring_index(tail, capacity, capacity) == tail) by {
                    lemma_ring_index(capacity);
                }
                lemma_slots_after_overwrite(held, tail, capacity, value);
            }
        } else {
            self.size += 1;
            proof {
                lemma_slots_after_append(held, tail, capacity, value);
            }
        }
        proof {
            self.lemma_holds(pushed(held, capacity, value));
            assert(self.head == ring_index(self.tail as int, self.size as int, capacity)) by {
                lemma_ring_index(capacity);
            }
        }
    }

    /// Takes the oldest value out, if there is one, and leaves its slot
    /// empty.
    pub fn pop(&mut self) -> (oldest: Option<T>)
        requires
            old(self).well_formed(),
        ensures
            final(self).well_formed(),
            final(self).spec_capacity() == old(self).spec_capacity(),
            old(self)@.len() == 0 ==> oldest is None && *final(self) == *old(self),
            old(self)@.len() > 0 ==> {
                &&& oldest == Some(old(self)@[0])
                &&& final(self)@ == old(self)@.drop_first()
                &&& final(self).spec_tail() == ring_index(
                    old(self).spec_tail(),
                    1,
                    old(self).spec_capacity(),
                )
                &&& final(self).spec_head() == old(self).spec_head()
                &&& final(self).spec_buffer() == old(self).spec_buffer().update(
                    old(self).spec_tail(),
                    None,
                )
            },
    {
        if self.is_empty() {
            return None;
        }
        let ghost held = self@;
        let ghost tail = self.tail as int;
        let ghost capacity = self.capacity as int;
        proof {
            lemma_slot_of_age(held, tail, capacity, 0);
            assert(ring_index(tail, 0, capacity) == tail) by {
                lemma_ring_index(capacity);
            }
        }
        let mut oldest: Option<T> = None;
        self.buffer.set_and_swap(self.tail, &mut oldest);
        self.tail = ring_step(self.tail, 1, self.capacity);
        self.size -= 1;
        proof {
            lemma_slots_after_removal(held, tail, capacity);
            self.lemma_holds(held.drop_first());
            assert(self.head == ring_index(self.tail as int, self.size as int, capacity)) by {
                lemma_ring_index(capacity);
            }
        }
        oldest
    }

    /// Clones of the `size` newest values, oldest first. More than the
    /// buffer holds cannot be had.
    pub fn get_latest_samples(&self, size: usize) -> (samples: Result<Vec<T>, BufferError>)
        requires
            self.well_formed(),
        ensures
            size > self@.len() ==> samples == Err::<Vec<T>, BufferError>(
                BufferError::RequestExceedsAvailable,
            ),
            size <= self@.len() ==> samples is Ok && clones_of(
                latest(self@, size as int),
                samples->Ok_0@,
            ),
    {
        if size > self.size {
            return Err(BufferError::RequestExceedsAvailable);
        }
        if self.size == 0 {
            return Ok(Vec::new());
        }
        let mut samples: Vec<T> = Vec::with_capacity(size);
        let mut index: usize = ring_step(self.tail, self.size - size, self.capacity);
        let mut taken: usize = 0;
        while taken < size
            invariant
                self.well_formed(),
                size <= self.size,
                taken <= size,
                samples@.len() == taken,
                index == ring_index(
                    self.tail as int,
                    self.size - size + taken,
                    self.capacity as int,
                ),
                forall|i: int|
                    0 <= i < taken ==> cloned::<T>(
                        #[trigger] latest(self@, size as int)[i],
                        samples@[i],
                    ),
            decreases size - taken,
        {
            proof {
                let age = self.size - size + taken;
                lemma_slot_of_age(self@, self.tail as int, self.capacity as int, age);
                assert(latest(self@, size as int)[taken as int] == self@[age]);
                assert(ring_index(index as int, 1, self.capacity as int) == ring_index(
                    self.tail as int,
                    age + 1,
                    self.capacity as int,
                )) by {
                    lemma_ring_index(self.capacity as int);
                }
            }
            samples.push(self.buffer[index].clone().unwrap());
            index = ring_step(index, 1, self.capacity);
            taken += 1;
        }
        Ok(samples)
    }

    /// Gives the buffer `new_size` slots. The newest values are kept, as
    /// many as fit, in their order; older ones are lost. A buffer without a
    /// slot is refused, and nothing changes.
    pub fn resize(&mut self, new_size: usize) -> (done: Result<(), BufferError>)
        requires
            old(self).well_formed(),
        ensures
            final(self).well_formed(),
            new_size == 0 ==> done == Err::<(), BufferError>(BufferError::InvalidCapacity)
                && *final(self) == *old(self),
            new_size > 0 ==> {
                &&& done is Ok
                &&& final(self).spec_capacity() == new_size
                &&& final(self).spec_tail() == 0
                &&& final(self).spec_head() == final(self)@.len() % (new_size as nat)
                &&& clones_of(retained(old(self)@, new_size as int), final(self)@)
            },
    {
        let mut new_buffer: CircularBuffer<T> = match CircularBuffer::new(new_size) {
            Ok(made) => made,
            Err(refused) => {
                return Err(refused);
            },
        };
        let size_to_copy: usize = if self.size <= new_size {
            self.size
        } else {
            new_size
        };
        let old_vec: Vec<T> = match self.get_latest_samples(size_to_copy) {
            Ok(samples) => samples,
            Err(refused) => {
                return Err(refused);
            },
        };
        let ghost kept = old_vec@;
        for ele in values: old_vec
            invariant
                new_buffer.well_formed(),
                new_buffer.spec_capacity() == new_size,
                new_buffer.spec_tail() == 0,
                values.seq() == kept,
                kept.len() <= new_size,
                new_buffer@ == kept.take(values.index() as int),
        {
            new_buffer.push(ele);
        }
        proof {
            assert(kept.take(kept.len() as int) =~= kept);
            assert(latest(self@, size_to_copy as int) =~= retained(self@, new_size as int));
        }
        *self = new_buffer;
        Ok(())
    }
}

/// For a type whose clones always equal the values that they were made
/// from, the clones of a sequence are that sequence. Where
/// [`CircularBuffer::get_latest_samples`] and [`CircularBuffer::resize`]
/// promise clones, they then give the values themselves.
pub proof fn lemma_faithful_clones<T: Clone>(values: Seq<T>, copies: Seq<T>)
    requires
        clones_of(values, copies),
        forall|value: T, copy: T| #[trigger] cloned::<T>(value, copy) ==> copy == value,
    ensures
        copies == values,
{
    assert(copies =~= values);
}

/// Pushing values one by one onto what a buffer holds leaves the newest of
/// them all, as many as the buffer has slots, in the order in which they
/// came.
pub proof fn lemma_pushes_keep_newest<T>(content: Seq<T>, capacity: int, values: Seq<T>)
    requires
        capacity >= 1,
        content.len() <= capacity,
    ensures
        pushed_all(content, capacity, values) == retained(content + values, capacity),
    decreases values.len(),
{
    if values.len() == 0 {
        assert(content + values =~= content);
    } else {
        let earlier = values.drop_last();
        lemma_pushes_keep_newest(content, capacity, earlier);
        assert((content + earlier).push(values.last()) =~= content + values);
        assert(pushed(retained(content + earlier, capacity), capacity, values.last()) =~= retained(
            content + values,
            capacity,
        ));
    }
}

/// An empty buffer that took no more pushes than it has slots gives back,
/// as its newest values, exactly what was pushed, in order; after more
/// pushes it holds exactly the newest of them, as many as it has slots,
/// oldest first.
pub proof fn lemma_pushes_into_empty<T>(capacity: int, values: Seq<T>)
    requires
        capacity >= 1,
    ensures
        values.len() <= capacity ==> latest(
            pushed_all(Seq::empty(), capacity, values),
            values.len() as int,
        ) == values,
        values.len() > capacity ==> pushed_all(Seq::empty(), capacity, values) == latest(
            values,
            capacity,
        ),
{
    lemma_pushes_keep_newest(Seq::empty(), capacity, values);
    assert(Seq::<T>::empty() + values =~= values);
    if values.len() <= capacity {
        assert(latest(values, values.len() as int) =~= values);
    }
}

/// Asking a buffer that was just given `new_capacity` slots for its newest
/// values, as many as it could keep, gives the newest values that it held
/// before, as many and in the same order.
pub proof fn lemma_resize_then_latest<T>(content: Seq<T>, new_capacity: int)
    requires
        new_capacity >= 1,
    ensures
        new_capacity <= content.len() ==> latest(retained(content, new_capacity), new_capacity)
            == latest(content, new_capacity),
        new_capacity > content.len() ==> latest(
            retained(content, new_capacity),
            content.len() as int,
        ) == latest(content, content.len() as int),
{
    if new_capacity <= content.len() {
        assert(latest(retained(content, new_capacity), new_capacity) =~= latest(
            content,
            new_capacity,
        ));
    }
}

/// Giving a buffer the number of slots that it has already keeps all that
/// it holds, in order.
pub proof fn lemma_resize_to_same_capacity<T>(buffer: CircularBuffer<T>)
    requires
        buffer.well_formed(),
    ensures
        retained(buffer@, buffer.spec_capacity()) == buffer@,
{
    buffer.lemma_bounds();
}

} // verus!
