//! A fixed-capacity circular store that always keeps the most recent samples.
//!
//! The buffer is addressed by age: position `0` is the oldest sample still
//! held, position `capacity - 1` the one pushed last. Its view is the sequence
//! of samples in that order.

use vstd::prelude::*;
use vstd::arithmetic::div_mod::{lemma_fundamental_div_mod_converse, lemma_small_mod};

verus! {

/// `value` is a value that `T::default()` may return: the zero of a sample type.
pub open spec fn is_default<T: Default>(value: T) -> bool {
    call_ensures(T::default, (), value)
}

/// The remainder of `idx` by `len` that lies in `0..len`, also for a negative `idx`.
pub open spec fn wrap(idx: int, len: int) -> int {
    idx % len
}

/// What a buffer that shows `held` shows after `fresh` was pushed, sample by sample.
pub open spec fn after_pushes<T>(held: Seq<T>, fresh: Seq<T>) -> Seq<T>
    decreases fresh.len(),
{
    if fresh.len() == 0 {
        held
    } else {
        after_pushes(held.drop_first().push(fresh.first()), fresh.drop_first())
    }
}

/// `len` default values.
pub fn defaults<T: Default>(len: usize) -> (values: Vec<T>)
    ensures
        values@.len() == len,
        forall|i: int| 0 <= i < len ==> is_default(#[trigger] values@[i]),
{
    let mut values: Vec<T> = Vec::new();
    while values.len() < len
        invariant
            values@.len() <= len,
            forall|i: int| 0 <= i < values@.len() ==> is_default(#[trigger] values@[i]),
        decreases len - values@.len(),
    {
        values.push(T::default());
    }
    values
}

/// `(a + b) mod len` for any `a` and `b`, computed without overflow.
pub fn wrapped_sum(a: usize, b: usize, len: usize) -> (sum: usize)
    requires
        len > 0,
    ensures
        sum == wrap(a + b, len as int),
        sum < len,
{
    let first = a % len;
    let second = b % len;
    let room = len - second;
    proof {
        vstd::arithmetic::div_mod::lemma_add_mod_noop(a as int, b as int, len as int);
        lemma_wrap_value(first + second, len as int);
    }
    if first < room {
        first + second
    } else {
        first - room
    }
}

pub struct RingBuffer<T: Default> {
    capacity: usize,
    current_pos: usize,
    buffer: Vec<T>,
}

impl<T: Default> View for RingBuffer<T> {
    type V = Seq<T>;

    /// The samples by age: the slot under the cursor first, then on round the ring.
    open spec fn view(&self) -> Seq<T> {
        Seq::new(
            self.slots().len(),
            |i: int| self.slots()[wrap(i + self.cursor(), self.slots().len() as int)],
        )
    }
}

impl<T: Default> RingBuffer<T> {
    /// The backing store in physical order.
    pub closed spec fn slots(&self) -> Seq<T> {
        self.buffer@
    }

    /// The physical slot that the next push overwrites.
    pub closed spec fn cursor(&self) -> int {
        self.current_pos as int
    }

    #[verifier::type_invariant]
    spec fn well_formed(&self) -> bool {
        &&& self.buffer@.len() == self.capacity
        &&& self.current_pos <= self.capacity
        &&& (self.capacity > 0 ==> self.current_pos < self.capacity)
    }

    /// A buffer of `capacity` slots, each holding the default value, cursor at slot 0.
    pub fn new(capacity: usize) -> (ring: Self)
        ensures
            ring@.len() == capacity,
            ring.slots().len() == capacity,
            ring.cursor() == 0,
            forall|i: int| 0 <= i < capacity ==> is_default(#[trigger] ring@[i]),
    {
        let buffer: Vec<T> = defaults(capacity);
        let ring = RingBuffer { capacity, current_pos: 0, buffer };
        assert forall|i: int| 0 <= i < capacity implies is_default(#[trigger] ring@[i]) by {
            lemma_small_mod(i as nat, capacity as nat);
        }
        ring
    }

    pub fn capacity(&self) -> (capacity: usize)
        ensures
            capacity == self@.len(),
            capacity == self.slots().len(),
            capacity > 0 ==> 0 <= self.cursor() < capacity,
    {
        proof {
            use_type_invariant(self);
        }
        self.capacity
    }

    /// Overwrites the oldest sample with `value`, which becomes the newest.
    pub fn push(&mut self, value: T)
        requires
            old(self)@.len() > 0,
        ensures
            final(self)@ == old(self)@.drop_first().push(value),
            final(self)@ == after_pushes(old(self)@, seq![value]),
            final(self).slots() == old(self).slots().update(old(self).cursor(), value),
            final(self).cursor() == wrap(old(self).cursor() + 1, old(self)@.len() as int),
    {
        proof {
            use_type_invariant(&*self);
        }
        let at = self.current_pos;
        self.buffer[at] = value;
        self.current_pos = if at + 1 == self.capacity {
            0
        } else {
            at + 1
        };
        proof {
            let len = self.capacity as int;
            let old_at = at as int;
            if old_at + 1 == len {
                lemma_fundamental_div_mod_converse(old_at + 1, len, 1, 0);
            } else {
                lemma_small_mod((old_at + 1) as nat, len as nat);
            }
            lemma_push_rotates(old(self).buffer@, old_at, value);
            assert(seq![value].drop_first() =~= Seq::<T>::empty());
            assert(after_pushes(old(self)@.drop_first().push(value), Seq::<T>::empty())
                == old(self)@.drop_first().push(value));
        }
    }

    /// Pushes `len` default values, or does nothing where `len` exceeds the capacity.
    pub fn extend_defaults(&mut self, len: usize) -> (done: bool)
        ensures
            done == (len <= old(self)@.len()),
            !done ==> final(self)@ == old(self)@ && final(self).slots() == old(self).slots()
                && final(self).cursor() == old(self).cursor(),
            done ==> exists|zeros: Seq<T>|
                {
                    &&& zeros.len() == len
                    &&& forall|i: int| 0 <= i < len ==> is_default(#[trigger] zeros[i])
                    &&& final(self)@ == after_pushes(old(self)@, zeros)
                },
            done ==> final(self)@.len() == old(self)@.len(),
            done ==> forall|i: int|
                0 <= i < old(self)@.len() - len ==> #[trigger] final(self)@[i] == old(self)@[i + len],
            done ==> forall|i: int|
                old(self)@.len() - len <= i < old(self)@.len() ==> is_default(
                    #[trigger] final(self)@[i],
                ),
            done && len > 0 ==> final(self).cursor() == wrap(
                old(self).cursor() + len,
                old(self)@.len() as int,
            ),
            done && len == 0 ==> final(self).slots() == old(self).slots() && final(self).cursor()
                == old(self).cursor(),
    {
        if self.capacity() < len {
            return false;
        }
        let ghost size = self@.len() as int;
        let ghost mut zeros: Seq<T> = Seq::empty();
        let mut pushed: usize = 0;
        while pushed < len
            invariant
                pushed <= len <= size,
                self@.len() == size == old(self)@.len(),
                zeros.len() == pushed,
                forall|i: int| 0 <= i < pushed ==> is_default(#[trigger] zeros[i]),
                self@ == after_pushes(old(self)@, zeros),
                pushed == 0 ==> self.slots() == old(self).slots()
                    && self.cursor() == old(self).cursor(),
                pushed > 0 ==> self.cursor() == wrap(old(self).cursor() + pushed, size),
                size > 0 ==> 0 <= old(self).cursor() < size,
            decreases len - pushed,
        {
            let zero = T::default();
            self.push(zero);
            proof {
                lemma_after_pushes_append(old(self)@, zeros, seq![zero]);
                assert(zeros + seq![zero] =~= zeros.push(zero));
                zeros = zeros.push(zero);
                lemma_wrap_step(old(self).cursor(), pushed as int, size);
            }
            pushed = pushed + 1;
        }
        proof {
            if size > 0 {
                lemma_after_pushes_is_tail(old(self)@, zeros);
                let joined = old(self)@ + zeros;
                assert forall|i: int| 0 <= i < size - len implies #[trigger] self@[i]
                    == old(self)@[i + len] by {
                    assert(joined.skip(len as int)[i] == joined[i + len]);
                }
                assert forall|i: int| size - len <= i < size implies is_default(
                    #[trigger] self@[i],
                ) by {
                    assert(joined.skip(len as int)[i] == joined[i + len]);
                    assert(joined[i + len] == zeros[i + len - size]);
                }
            }
        }
        true
    }

    /// The slot at age `idx`, counted round the ring, for overwriting or accumulating.
    pub fn index_mut(&mut self, idx: usize) -> (slot: &mut T)
        requires
            old(self)@.len() > 0,
        ensures
            *slot == old(self)@[wrap(idx as int, old(self)@.len() as int)],
            final(self)@ == old(self)@.update(
                wrap(idx as int, old(self)@.len() as int),
                *final(slot),
            ),
            final(self).cursor() == old(self).cursor(),
    {
        proof {
            use_type_invariant(&*self);
        }
        let at = self.physical(idx);
        proof {
            lemma_update_rotates(
                self.buffer@,
                self.current_pos as int,
                wrap(idx as int, self.capacity as int),
            );
        }
        &mut self.buffer[at]
    }

    /// As `index_mut`, for an offset that may be negative: `-1` is the newest sample.
    pub fn index_mut_signed(&mut self, idx: isize) -> (slot: &mut T)
        requires
            old(self)@.len() > 0,
        ensures
            *slot == old(self)@[wrap(idx as int, old(self)@.len() as int)],
            final(self)@ == old(self)@.update(
                wrap(idx as int, old(self)@.len() as int),
                *final(slot),
            ),
            final(self).cursor() == old(self).cursor(),
    {
        proof {
            use_type_invariant(&*self);
        }
        let age = self.normalize(idx);
        proof {
            lemma_small_mod(age as nat, self.capacity as nat);
        }
        self.index_mut(age)
    }

    /// The physical slot of age `idx`: `(idx + cursor) mod capacity`.
    fn physical(&self, idx: usize) -> (at: usize)
        requires
            self@.len() > 0,
        ensures
            at == wrap(wrap(idx as int, self@.len() as int) + self.cursor(), self@.len() as int),
            at == wrap(idx + self.cursor(), self@.len() as int),
            at < self.slots().len(),
    {
        proof {
            use_type_invariant(self);
            lemma_wrap_step(self.current_pos as int, idx as int, self.capacity as int);
        }
        wrapped_sum(idx, self.current_pos, self.capacity)
    }

    /// The age in `0..capacity` that a signed offset stands for.
    fn normalize(&self, idx: isize) -> (age: usize)
        requires
            self@.len() > 0,
        ensures
            age == wrap(idx as int, self@.len() as int),
            age < self@.len(),
    {
        proof {
            use_type_invariant(self);
        }
        let len = self.capacity;
        if idx >= 0 {
            (idx as usize) % len
        } else {
            let behind: usize = (-(idx + 1)) as usize;
            let rest = behind % len;
            proof {
                let b = behind as int;
                let c = len as int;
                assert(b == c * (b / c) + b % c) by {
                    vstd::arithmetic::div_mod::lemma_fundamental_div_mod(b, c);
                }
                assert(idx as int == (-(b / c) - 1) * c + (c - 1 - rest)) by (nonlinear_arith)
                    requires
                        b == c * (b / c) + b % c,
                        rest as int == b % c,
                        idx as int == -(b + 1),
                ;
                lemma_fundamental_div_mod_converse(idx as int, c, -(b / c) - 1, c - 1 - rest);
            }
            len - 1 - rest
        }
    }
}

impl<T: Default> core::ops::Index<usize> for RingBuffer<T> {
    type Output = T;

    /// The sample at age `idx`, counted round the ring.
    fn index(&self, idx: usize) -> (slot: &T)
        ensures
            *slot == self@[wrap(idx as int, self@.len() as int)],
            *slot == self.slots()[wrap(idx + self.cursor(), self@.len() as int)],
    {
        let at = self.physical(idx);
        proof {
            use_type_invariant(self);
            vstd::arithmetic::div_mod::lemma_mod_bound(idx as int, self.capacity as int);
        }
        &self.buffer[at]
    }
}

impl<T: Default> vstd::std_specs::core::IndexSpecImpl<usize> for RingBuffer<T> {
    open spec fn index_req(&self, index: &usize) -> bool {
        self@.len() > 0
    }
}

impl<T: Default> core::ops::Index<isize> for RingBuffer<T> {
    type Output = T;

    /// The sample at a signed offset: `-1` is the newest, `-capacity` the oldest.
    fn index(&self, idx: isize) -> (slot: &T)
        ensures
            *slot == self@[wrap(idx as int, self@.len() as int)],
            0 <= wrap(idx as int, self@.len() as int) < self@.len(),
    {
        let age = self.normalize(idx);
        let at = self.physical(age);
        proof {
            use_type_invariant(self);
            lemma_small_mod(age as nat, self.capacity as nat);
        }
        &self.buffer[at]
    }
}

impl<T: Default> vstd::std_specs::core::IndexSpecImpl<isize> for RingBuffer<T> {
    open spec fn index_req(&self, index: &isize) -> bool {
        self@.len() > 0
    }
}

/// Advancing a cursor by `n` and then by one lands where advancing by `n + 1` does.
proof fn lemma_wrap_step(start: int, n: int, len: int)
    requires
        len > 0,
        0 <= n,
        0 <= start,
    ensures
        wrap(wrap(start + n, len) + 1, len) == wrap(start + n + 1, len),
        wrap(wrap(n, len) + start, len) == wrap(n + start, len),
{
    vstd::arithmetic::div_mod::lemma_add_mod_noop_right(1, start + n, len);
    vstd::arithmetic::div_mod::lemma_add_mod_noop_right(start, n, len);
}

/// Writing under the cursor and moving it on drops the oldest sample and appends the new one.
proof fn lemma_push_rotates<T>(store: Seq<T>, at: int, value: T)
    requires
        0 <= at < store.len(),
    ensures
        ({
            let len = store.len() as int;
            let next = if at + 1 == len { 0 } else { at + 1 };
            Seq::new(store.len(), |i: int| store.update(at, value)[wrap(i + next, len)])
                == Seq::new(store.len(), |i: int| store[wrap(i + at, len)]).drop_first().push(value)
        }),
{
    let len = store.len() as int;
    let next = if at + 1 == len { 0 } else { at + 1 };
    let after = Seq::new(store.len(), |i: int| store.update(at, value)[wrap(i + next, len)]);
    let before = Seq::new(store.len(), |i: int| store[wrap(i + at, len)]);
    let shifted = before.drop_first().push(value);
    assert forall|i: int| 0 <= i < len implies after[i] == shifted[i] by {
        lemma_wrap_value(i + next, len);
        lemma_wrap_value(i + 1 + at, len);
        if i < len - 1 {
            assert(shifted[i] == before[i + 1]);
            assert(wrap(i + next, len) == wrap(i + 1 + at, len));
            assert(wrap(i + 1 + at, len) != at);
        } else {
            assert(wrap(i + next, len) == at);
        }
    }
    assert(after =~= shifted);
}

/// Writing the slot of age `age` changes position `age` of the view and nothing else.
proof fn lemma_update_rotates<T>(store: Seq<T>, cursor: int, age: int)
    requires
        0 <= cursor < store.len(),
        0 <= age < store.len(),
    ensures
        forall|value: T|
            Seq::new(
                store.len(),
                |i: int|
                    (#[trigger] store.update(wrap(age + cursor, store.len() as int), value))[wrap(
                        i + cursor,
                        store.len() as int,
                    )],
            ) == Seq::new(store.len(), |i: int| store[wrap(i + cursor, store.len() as int)]).update(
                age,
                value,
            ),
{
    let len = store.len() as int;
    let target = wrap(age + cursor, len);
    lemma_wrap_value(age + cursor, len);
    assert forall|value: T|
        Seq::new(store.len(), |i: int| (#[trigger] store.update(target, value))[wrap(i + cursor, len)])
            == Seq::new(store.len(), |i: int| store[wrap(i + cursor, len)]).update(age, value) by {
        let after = Seq::new(store.len(), |i: int| store.update(target, value)[wrap(i + cursor, len)]);
        let expected = Seq::new(store.len(), |i: int| store[wrap(i + cursor, len)]).update(age, value);
        assert forall|i: int| 0 <= i < len implies after[i] == expected[i] by {
            lemma_wrap_value(i + cursor, len);
        }
        assert(after =~= expected);
    }
}

/// The value of `wrap` on a sum of two numbers that each lie in `0..len`.
proof fn lemma_wrap_value(sum: int, len: int)
    requires
        len > 0,
        0 <= sum < 2 * len,
    ensures
        wrap(sum, len) == if sum < len { sum } else { sum - len },
{
    if sum < len {
        lemma_small_mod(sum as nat, len as nat);
    } else {
        lemma_fundamental_div_mod_converse(sum, len, 1, sum - len);
    }
}

/// Pushing `fresh` onto a full buffer leaves the last `held.len()` samples of
/// `held` followed by `fresh`.
pub proof fn lemma_after_pushes_is_tail<T>(held: Seq<T>, fresh: Seq<T>)
    requires
        held.len() > 0,
    ensures
        after_pushes(held, fresh) == (held + fresh).skip(fresh.len() as int),
        after_pushes(held, fresh).len() == held.len(),
    decreases fresh.len(),
{
    if fresh.len() == 0 {
        assert((held + fresh).skip(0) =~= held);
    } else {
        let next = held.drop_first().push(fresh.first());
        lemma_after_pushes_is_tail(next, fresh.drop_first());
        assert((next + fresh.drop_first()).skip(fresh.len() - 1) =~= (held + fresh).skip(
            fresh.len() as int,
        ));
    }
}

/// Pushing `first` and then `second` is pushing the two in a row.
pub proof fn lemma_after_pushes_append<T>(held: Seq<T>, first: Seq<T>, second: Seq<T>)
    ensures
        after_pushes(after_pushes(held, first), second) == after_pushes(held, first + second),
    decreases first.len(),
{
    if first.len() == 0 {
        assert(first + second =~= second);
    } else {
        let next = held.drop_first().push(first.first());
        lemma_after_pushes_append(next, first.drop_first(), second);
        assert((first + second).drop_first() =~= first.drop_first() + second);
        assert((first + second).first() == first.first());
    }
}

/// Once at least as many samples were pushed as the buffer holds, age `i` shows
/// the sample pushed `capacity - i` steps ago; age 0 is the oldest one alive.
pub proof fn lemma_oldest_after_pushes<T>(held: Seq<T>, fresh: Seq<T>, i: int)
    requires
        held.len() > 0,
        fresh.len() >= held.len(),
        0 <= i < held.len(),
    ensures
        after_pushes(held, fresh)[i] == fresh[fresh.len() - held.len() + i],
        after_pushes(held, fresh)[0] == fresh[fresh.len() - held.len()],
{
    lemma_after_pushes_is_tail(held, fresh);
    let count = fresh.len() as int;
    assert((held + fresh).skip(count)[i] == (held + fresh)[count + i]);
    assert((held + fresh).skip(count)[0] == (held + fresh)[count + 0]);
}

/// A signed offset and its remainder by the capacity name the same sample, and
/// that remainder is never negative.
pub proof fn lemma_signed_offset_normalizes(idx: int, len: int)
    requires
        len > 0,
    ensures
        0 <= wrap(idx, len) < len,
        wrap(wrap(idx, len), len) == wrap(idx, len),
        wrap(idx + len, len) == wrap(idx, len),
{
    vstd::arithmetic::div_mod::lemma_mod_bound(idx, len);
    lemma_small_mod(wrap(idx, len) as nat, len as nat);
    vstd::arithmetic::div_mod::lemma_mod_add_multiples_vanish(idx, len);
}

} // verus!
