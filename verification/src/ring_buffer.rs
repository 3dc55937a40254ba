use vstd::prelude::*;

verus! {

/// The newest `n` items of `s`, oldest first (all of `s` when it holds no more than `n`).
pub open spec fn newest<T>(s: Seq<T>, n: nat) -> Seq<T> {
    if s.len() <= n {
        s
    } else {
        s.subrange(s.len() - n, s.len() as int)
    }
}

/// What a buffer of capacity `cap` that holds `s` holds after `v` is pushed.
pub open spec fn pushed<T>(s: Seq<T>, v: T, cap: nat) -> Seq<T> {
    newest(s.push(v), cap)
}

/// What a buffer of capacity `cap` that holds `s` holds after each item of `vs` is
/// pushed, in order.
pub open spec fn pushed_all<T>(s: Seq<T>, vs: Seq<T>, cap: nat) -> Seq<T>
    decreases vs.len(),
{
    if vs.len() == 0 {
        s
    } else {
        pushed(pushed_all(s, vs.drop_last(), cap), vs.last(), cap)
    }
}

/// Keeping the newest `n` items and then, after one more item, the newest `n` again,
/// keeps the same items as keeping the newest `n` once at the end.
pub proof fn lemma_newest_push<T>(s: Seq<T>, v: T, n: nat)
    ensures
        newest(newest(s, n).push(v), n) == newest(s.push(v), n),
{
    if s.len() > n {
        assert(newest(newest(s, n).push(v), n) =~= newest(s.push(v), n));
    }
}

/// A buffer keeps the newest items in the order in which they were pushed: after
/// pushing `vs` onto a buffer of capacity `cap` that held `s`, it holds the newest
/// `cap` items of `s` followed by `vs`.
pub proof fn lemma_pushed_all<T>(s: Seq<T>, vs: Seq<T>, cap: nat)
    requires
        s.len() <= cap,
    ensures
        pushed_all(s, vs, cap) == newest(s + vs, cap),
    decreases vs.len(),
{
    if vs.len() == 0 {
        assert(s + vs =~= s);
    } else {
        lemma_pushed_all(s, vs.drop_last(), cap);
        lemma_newest_push(s + vs.drop_last(), vs.last(), cap);
        assert((s + vs.drop_last()).push(vs.last()) =~= s + vs);
    }
}

/// Pushing onto an empty buffer of capacity `cap` leaves exactly the newest `cap`
/// items pushed, oldest first.
pub proof fn lemma_history_of_pushes<T>(vs: Seq<T>, cap: nat)
    ensures
        pushed_all(Seq::empty(), vs, cap) == newest(vs, cap),
{
    lemma_pushed_all(Seq::empty(), vs, cap);
    assert(Seq::<T>::empty() + vs =~= vs);
}

/// The item just pushed is the newest one held, the count grows by one until it
/// reaches the capacity, and it never exceeds it.
pub proof fn lemma_push_keeps_newest<T>(s: Seq<T>, v: T, cap: nat)
    requires
        cap > 0,
        s.len() <= cap,
    ensures
        newest(pushed(s, v, cap), 1) == seq![v],
        pushed(s, v, cap).len() == if s.len() < cap { s.len() + 1 } else { cap },
        pushed(s, v, cap).len() <= cap,
        pushed(s, v, cap).last() == v,
{
    assert(newest(pushed(s, v, cap), 1) =~= seq![v]);
}

/// The newest `n` items of `s` are its last `min(n, |s|)` items, in their order in `s`.
pub proof fn lemma_newest_is_suffix<T>(s: Seq<T>, n: nat)
    ensures
        newest(s, n).len() == if s.len() <= n { s.len() } else { n },
        forall|j: int|
            0 <= j < newest(s, n).len() ==> #[trigger] newest(s, n)[j] == s[s.len()
                - newest(s, n).len() + j],
{
}

/// A push onto a buffer that is not full appends the item; a push onto a full one
/// drops the oldest item and appends the new one.
pub proof fn lemma_push_drops_oldest_when_full<T>(s: Seq<T>, v: T, cap: nat)
    requires
        cap > 0,
        s.len() <= cap,
    ensures
        s.len() < cap ==> pushed(s, v, cap) == s.push(v),
        s.len() == cap ==> pushed(s, v, cap) == s.drop_first().push(v),
{
    if s.len() == cap {
        assert(pushed(s, v, cap) =~= s.drop_first().push(v));
    }
}

/// After the pushes `vs` onto an empty buffer of capacity `cap`, it holds the last
/// `min(|vs|, cap)` items of `vs`, oldest first.
pub proof fn lemma_pushes_keep_the_last_items<T>(vs: Seq<T>, cap: nat)
    ensures
        pushed_all(Seq::empty(), vs, cap).len() == if vs.len() <= cap { vs.len() } else { cap },
        forall|j: int|
            0 <= j < pushed_all(Seq::empty(), vs, cap).len() ==> #[trigger] pushed_all(
                Seq::empty(),
                vs,
                cap,
            )[j] == vs[vs.len() - pushed_all(Seq::empty(), vs, cap).len() + j],
{
    lemma_history_of_pushes(vs, cap);
    lemma_newest_is_suffix(vs, cap);
}

/// A fixed-capacity history: pushing onto a full buffer overwrites the oldest item.
pub struct RingBuffer<T> {
    buf: Vec<Option<T>>,
    capacity: usize,
    head: usize,
    len: usize,
}

impl<T> RingBuffer<T> {
    /// The slot of `buf` that holds the `i`-th oldest item.
    spec fn slot(&self, i: int) -> int {
        let k = self.head - self.len + i;
        if k < 0 {
            k + self.capacity
        } else {
            k
        }
    }

    #[verifier::type_invariant]
    spec fn inv(&self) -> bool {
        &&& self.buf@.len() == self.capacity
        &&& self.len <= self.capacity
        &&& self.capacity > 0 ==> self.head < self.capacity
        &&& self.capacity == 0 ==> self.head == 0
        &&& forall|i: int| 0 <= i < self.len ==> (#[trigger] self.buf@[self.slot(i)]) is Some
    }

    /// The number of items the buffer can hold.
    pub closed spec fn cap(&self) -> nat {
        self.capacity as nat
    }

    /// Creates an empty buffer that holds at most `capacity` items.
    pub fn new(capacity: usize) -> (rb: Self) where T: Clone
        ensures
            rb@ == Seq::<T>::empty(),
            rb.cap() == capacity,
    {
        let buf: Vec<Option<T>> = vec![None; capacity];
        let rb = RingBuffer { buf, capacity, head: 0, len: 0 };
        assert(rb@ =~= Seq::<T>::empty());
        rb
    }

    /// Appends `value`; when the buffer is full the oldest item is dropped.
    pub fn push(&mut self, value: T)
        requires
            old(self).cap() > 0,
        ensures
            final(self).cap() == old(self).cap(),
            final(self)@ == pushed(old(self)@, value, old(self).cap()),
    {
        proof {
            use_type_invariant(&*self);
        }
        let ghost old_self = *self;
        let mut taken = RingBuffer { buf: Vec::new(), capacity: 0, head: 0, len: 0 };
        std::mem::swap(self, &mut taken);
        let RingBuffer { mut buf, capacity, head, len } = taken;
        buf.set(head, Some(value));
        let new_head = (head + 1) % capacity;
        let new_len = if len < capacity {
            len + 1
        } else {
            len
        };
        proof {
            if head + 1 < capacity {
                vstd::arithmetic::div_mod::lemma_small_mod((head + 1) as nat, capacity as nat);
            } else {
                vstd::arithmetic::div_mod::lemma_mod_self_0(capacity as int);
            }
        }
        let ghost nb = RingBuffer { buf, capacity, head: new_head, len: new_len };
        proof {
            assert forall|i: int| 0 <= i < new_len implies (#[trigger] buf@[nb.slot(i)]) is Some by {
                if new_len == len + 1 && i < len {
                    assert(nb.slot(i) == old_self.slot(i));
                    assert(old_self.buf@[old_self.slot(i)] is Some);
                } else if new_len == len && i + 1 < len {
                    assert(nb.slot(i) == old_self.slot(i + 1));
                    assert(old_self.buf@[old_self.slot(i + 1)] is Some);
                }
            }
            assert(nb@ =~= pushed(old_self@, value, capacity as nat)) by {
                if new_len == len + 1 {
                    assert forall|i: int| 0 <= i < len implies nb.slot(i) == old_self.slot(i)
                        && nb.slot(i) != head by {}
                } else {
                    assert forall|i: int| 0 <= i && i + 1 < len implies nb.slot(i) == old_self.slot(i + 1)
                        && nb.slot(i) != head by {}
                }
            }
        }
        *self = RingBuffer { buf, capacity, head: new_head, len: new_len };
    }

    /// The newest `n` items (all of them when fewer are held), oldest first.
    pub fn latest(&self, n: usize) -> (r: Vec<&T>)
        ensures
            r@.len() == newest(self@, n as nat).len(),
            forall|j: int| 0 <= j < r@.len() ==> *r@[j] == newest(self@, n as nat)[j],
    {
        proof {
            use_type_invariant(self);
        }
        let n = if n < self.len {
            n
        } else {
            self.len
        };
        let mut result: Vec<&T> = Vec::with_capacity(n);
        let mut i: usize = 0;
        while i < n
            invariant
                i <= n <= self.len <= self.capacity,
                self.buf@.len() == self.capacity,
                self.capacity > 0 ==> self.head < self.capacity,
                forall|k: int| 0 <= k < self.len ==> (#[trigger] self.buf@[self.slot(k)]) is Some,
                result@.len() == i,
                forall|j: int| 0 <= j < i ==> *result@[j] == self@[self.len - n + j],
            decreases n - i,
        {
            // the slot `(head + capacity - n + i) % capacity`, reached without overflow
            let back = n - i;
            let index = if self.head >= back {
                self.head - back
            } else {
                self.head + (self.capacity - back)
            };
            assert(index == self.slot(self.len - n + i));
            if let Some(val) = self.buf[index].as_ref() {
                result.push(val);
            }
            i += 1;
        }
        proof {
            assert forall|j: int| 0 <= j < result@.len() implies *result@[j] == newest(
                self@,
                n as nat,
            )[j] by {}
        }
        result
    }

    /// The number of items held, which never exceeds the capacity.
    pub fn len(&self) -> (r: usize)
        ensures
            r == self@.len(),
            r <= self.cap(),
    {
        proof {
            use_type_invariant(self);
        }
        self.len
    }

    /// The number of items the buffer can hold.
    pub fn capacity(&self) -> (r: usize)
        ensures
            r == self.cap(),
    {
        self.capacity
    }

    /// Whether the buffer holds no item.
    pub fn is_empty(&self) -> (r: bool)
        ensures
            r == (self@.len() == 0),
    {
        self.len == 0
    }
}

impl<T> View for RingBuffer<T> {
    type V = Seq<T>;

    /// The items held, oldest first.
    closed spec fn view(&self) -> Seq<T> {
        Seq::new(self.len as nat, |i: int| self.buf@[self.slot(i)].unwrap())
    }
}

} // verus!
