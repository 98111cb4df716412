use vstd::prelude::*;

verus! {

/// Physical slot of logical index `i` in a ring of `cap` slots whose oldest
/// element sits at `offset` (for `0 <= i < cap`, `0 <= offset < cap`).
pub open spec fn phys(cap: int, offset: int, i: int) -> int {
    if offset + i < cap {
        offset + i
    } else {
        offset + i - cap
    }
}

/// Logical index of physical slot `p`: the inverse of `phys`.
pub open spec fn logical(cap: int, offset: int, p: int) -> int {
    if p >= offset {
        p - offset
    } else {
        p + cap - offset
    }
}

/// Whether physical slot `p` holds a live element.
pub open spec fn occupied(cap: int, offset: int, len: int, p: int) -> bool {
    logical(cap, offset, p) < len
}

/// The contents after pushing `v` onto `s` in a ring of capacity `cap`:
/// the oldest element leaves when the ring is full.
pub open spec fn pushed<T>(s: Seq<T>, cap: nat, v: T) -> Seq<T> {
    if s.len() < cap {
        s.push(v)
    } else {
        s.drop_first().push(v)
    }
}

/// What a push onto `s` evicts: the oldest element, when the ring is full.
pub open spec fn evicted<T>(s: Seq<T>, cap: nat) -> Option<T> {
    if s.len() < cap {
        None
    } else {
        Some(s[0])
    }
}

/// Whether the release of a ring in state (`cap`, `offset`, `len`) covers
/// physical slot `p`. One range suffices when the ring is full, when the
/// occupied slots start at slot 0 or when they do not reach past the end; else
/// they wrap and two ranges are released around the hole in the middle.
pub open spec fn in_release_ranges(cap: int, offset: int, len: int, p: int) -> bool {
    if len == cap || offset == 0 {
        0 <= p < len
    } else if offset + len <= cap {
        offset <= p < offset + len
    } else {
        (offset <= p < cap) || (0 <= p < len - (cap - offset))
    }
}

/// Releasing a ring frees each occupied slot and no other: in every state that
/// a ring can reach, the release ranges are exactly its occupied slots.
pub proof fn lemma_release_ranges_exact(cap: int, offset: int, len: int)
    requires
        0 < cap,
        0 <= offset < cap,
        0 <= len <= cap,
    ensures
        forall|p: int|
            0 <= p < cap ==> (#[trigger] in_release_ranges(cap, offset, len, p) <==> occupied(
                cap,
                offset,
                len,
                p,
            )),
{
}

/// A pop right after a push hands back the value just pushed, whether or not
/// the push evicted, and leaves what the push kept of the older elements.
pub proof fn lemma_pop_after_push<T>(s: Seq<T>, cap: nat, v: T)
    requires
        0 < cap,
        s.len() <= cap,
    ensures
        pushed(s, cap, v).len() > 0,
        pushed(s, cap, v).last() == v,
        pushed(s, cap, v).drop_last() == (if s.len() < cap {
            s
        } else {
            s.drop_first()
        }),
{
    if s.len() < cap {
        assert(s.push(v).drop_last() =~= s);
    } else {
        assert(s.drop_first().push(v).drop_last() =~= s.drop_first());
    }
}

/// A ring never holds more than its capacity: from any admissible contents,
/// any sequence of pushes keeps the length within `cap`, and once the ring is
/// full each push evicts exactly the oldest element.
pub proof fn lemma_pushes_bounded<T>(s: Seq<T>, cap: nat, vs: Seq<T>)
    requires
        0 < cap,
        s.len() <= cap,
    ensures
        vs.fold_left(s, |t: Seq<T>, v: T| pushed(t, cap, v)).len() <= cap,
    decreases vs.len(),
{
    if vs.len() > 0 {
        lemma_pushes_bounded(s, cap, vs.drop_last());
    }
}

/// A fixed-capacity circular stack. When full, a push overwrites the oldest
/// element; a pop always removes the newest one.
pub struct LoopedStack<T> {
    buf: Vec<Option<T>>,
    len: usize,
    offset: usize,
}

impl<T> View for LoopedStack<T> {
    type V = Seq<T>;

    /// The live elements, oldest first.
    closed spec fn view(&self) -> Seq<T> {
        Seq::new(
            self.len as nat,
            |i: int| self.buf@[phys(self.buf@.len() as int, self.offset as int, i)]->Some_0,
        )
    }
}

impl<T> LoopedStack<T> {
    /// The number of slots.
    pub closed spec fn cap(&self) -> nat {
        self.buf@.len()
    }

    /// The physical slot of the oldest element.
    pub closed spec fn start(&self) -> nat {
        self.offset as nat
    }

    /// The backing slots, in physical order.
    pub closed spec fn slots(&self) -> Seq<Option<T>> {
        self.buf@
    }

    /// Exactly the occupied slots hold a value, and they hold the view.
    pub closed spec fn wf(&self) -> bool {
        &&& self.buf@.len() > 0
        &&& self.len <= self.buf@.len()
        &&& self.offset < self.buf@.len()
        &&& forall|p: int|
            0 <= p < self.buf@.len() ==> (#[trigger] self.buf@[p] is Some <==> occupied(
                self.buf@.len() as int,
                self.offset as int,
                self.len as int,
                p,
            ))
    }

    /// Everything a caller can see of a well-formed stack.
    pub open spec fn inv(&self) -> bool {
        &&& self.wf()
        &&& self.cap() > 0
        &&& self@.len() <= self.cap()
        &&& self.start() < self.cap()
        &&& self.slots().len() == self.cap()
        &&& forall|i: int|
            0 <= i < self@.len() ==> #[trigger] self.slots()[phys(
                self.cap() as int,
                self.start() as int,
                i,
            )] == Some(self@[i])
        &&& forall|p: int|
            0 <= p < self.cap() ==> (#[trigger] self.slots()[p] is Some <==> occupied(
                self.cap() as int,
                self.start() as int,
                self@.len() as int,
                p,
            ))
    }

    proof fn lemma_inv(&self)
        requires
            self.wf(),
        ensures
            self.inv(),
    {
        assert forall|i: int| 0 <= i < self@.len() implies #[trigger] self.slots()[phys(
            self.cap() as int,
            self.start() as int,
            i,
        )] == Some(self@[i]) by {
            let p = phys(self.cap() as int, self.start() as int, i);
            assert(logical(self.cap() as int, self.start() as int, p) == i);
            assert(self.buf@[p] is Some);
        }
    }

    /// Physical slot of logical index `i`, computed without overflow.
    fn slot_of(&self, i: usize) -> (p: usize)
        requires
            self.wf(),
            i < self.buf@.len(),
        ensures
            p == phys(self.buf@.len() as int, self.offset as int, i as int),
            p < self.buf@.len(),
    {
        let cap = self.buf.len();
        if i < cap - self.offset {
            self.offset + i
        } else {
            i - (cap - self.offset)
        }
    }

    /// An empty stack with `size` slots.
    pub fn new(size: usize) -> (r: Self)
        requires
            size > 0,
        ensures
            r.inv(),
            r@ == Seq::<T>::empty(),
            r.cap() == size,
            r.start() == 0,
    {
        let mut buf: Vec<Option<T>> = Vec::with_capacity(size);
        let mut k: usize = 0;
        while k < size
            invariant
                k <= size,
                buf@.len() == k,
                forall|p: int| 0 <= p < k ==> #[trigger] buf@[p] is None,
            decreases size - k,
        {
            buf.push(None);
            k = k + 1;
        }
        let r = LoopedStack { buf, len: 0, offset: 0 };
        assert(r@ =~= Seq::<T>::empty());
        proof {
            r.lemma_inv();
        }
        r
    }

    /// Pushes `value` as the newest element. When the stack is full, the
    /// oldest element is overwritten and handed back.
    pub fn push(&mut self, value: T) -> (r: Option<T>)
        requires
            old(self).inv(),
        ensures
            final(self).inv(),
            final(self).cap() == old(self).cap(),
            final(self)@ == pushed(old(self)@, old(self).cap(), value),
            r == evicted(old(self)@, old(self).cap()),
            final(self).start() == if old(self)@.len() < old(self).cap() {
                old(self).start()
            } else if old(self).start() + 1 == old(self).cap() {
                0
            } else {
                old(self).start() + 1
            },
    {
        let ghost cap = self.buf@.len() as int;
        let ghost s0 = self@;
        if self.len < self.buf.len() {
            let p = self.slot_of(self.len);
            proof {
                assert(logical(cap, self.offset as int, p as int) == self.len);
            }
            self.buf.set(p, Some(value));
            self.len = self.len + 1;
            proof {
                assert forall|q: int| 0 <= q < cap implies (#[trigger] self.buf@[q] is Some
                    <==> occupied(cap, self.offset as int, self.len as int, q)) by {
                    if q != p {
                        assert(logical(cap, self.offset as int, q) != logical(
                            cap,
                            self.offset as int,
                            p as int,
                        ));
                    }
                }
                assert forall|i: int| 0 <= i < s0.len() implies phys(
                    cap,
                    self.offset as int,
                    i,
                ) != p by {}
                assert(self@ =~= s0.push(value));
                self.lemma_inv();
            }
            None
        } else {
            let p = self.offset;
            let mut slot: Option<T> = Some(value);
            std::mem::swap(&mut self.buf[p], &mut slot);
            self.offset = if self.offset + 1 == self.buf.len() {
                0
            } else {
                self.offset + 1
            };
            proof {
                assert(old(self).buf@[p as int] is Some) by {
                    assert(logical(cap, p as int, p as int) == 0);
                }
                assert(slot == Some(s0[0]));
                assert forall|i: int| 0 <= i < s0.len() - 1 implies phys(
                    cap,
                    self.offset as int,
                    i,
                ) == phys(cap, p as int, i + 1) by {}
                assert(self@ =~= s0.drop_first().push(value));
                self.lemma_inv();
            }
            slot
        }
    }

    /// Pushes each of `values` in order, discarding what they evict.
    pub fn extend(&mut self, values: Vec<T>)
        requires
            old(self).inv(),
        ensures
            final(self).inv(),
            final(self).cap() == old(self).cap(),
            final(self)@ == values@.fold_left(old(self)@, |s: Seq<T>, v: T| pushed(s, old(self).cap(), v)),
    {
        let ghost cap = self.cap();
        let ghost s0 = self@;
        let ghost vs = values@;
        let mut values = values;
        let n: usize = values.len();
        let mut k: usize = 0;
        while values.len() > 0
            invariant
                self.inv(),
                self.cap() == cap,
                k + values@.len() == vs.len(),
                vs.len() == n,
                values@ == vs.skip(k as int),
                self@ == vs.take(k as int).fold_left(s0, |s: Seq<T>, v: T| pushed(s, cap, v)),
            decreases values@.len(),
        {
            let v = values.remove(0);
            proof {
                assert(v == vs[k as int]);
                assert(vs.take(k as int + 1).drop_last() =~= vs.take(k as int));
                assert(values@ =~= vs.skip(k as int + 1));
            }
            self.push(v);
            k = k + 1;
        }
        proof {
            assert(vs.take(k as int) =~= vs);
        }
    }

    /// The element at logical index `index` (0 is the oldest).
    pub fn get(&self, index: usize) -> (r: Option<&T>)
        requires
            self.inv(),
        ensures
            match r {
                Some(x) => index < self@.len() && *x == self@[index as int],
                None => index >= self@.len(),
            },
    {
        if index >= self.len {
            return None;
        }
        let p = self.slot_of(index);
        proof {
            self.lemma_inv();
        }
        self.buf[p].as_ref()
    }

    /// The element `nte` places below the newest (`peek(0)` is the newest).
    pub fn peek(&self, nte: usize) -> (r: Option<&T>)
        requires
            self.inv(),
        ensures
            match r {
                Some(x) => nte < self@.len() && *x == self@[self@.len() - 1 - nte],
                None => nte >= self@.len(),
            },
    {
        if nte >= self.len {
            return None;
        }
        let pos: usize = self.len - nte - 1;
        self.get(pos)
    }

    /// The newest element.
    pub fn last(&self) -> (r: Option<&T>)
        requires
            self.inv(),
        ensures
            match r {
                Some(x) => self@.len() > 0 && *x == self@.last(),
                None => self@.len() == 0,
            },
    {
        self.peek(0)
    }

    /// The number of live elements.
    pub fn len(&self) -> (r: usize)
        requires
            self.inv(),
        ensures
            r == self@.len(),
    {
        self.len
    }

    /// The number of slots.
    pub fn size(&self) -> (r: usize)
        requires
            self.inv(),
        ensures
            r == self.cap(),
    {
        self.buf.len()
    }

    /// The physical slot of the oldest element.
    pub fn offset(&self) -> (r: usize)
        requires
            self.inv(),
        ensures
            r == self.start(),
    {
        self.offset
    }

    /// Removes and returns the newest element.
    pub fn pop(&mut self) -> (r: Option<T>)
        requires
            old(self).inv(),
        ensures
            final(self).inv(),
            final(self).cap() == old(self).cap(),
            final(self).start() == old(self).start(),
            old(self)@.len() == 0 ==> r is None && final(self)@ == old(self)@,
            old(self)@.len() > 0 ==> r == Some(old(self)@.last()) && final(self)@
                == old(self)@.drop_last(),
    {
        if self.len == 0 {
            return None;
        }
        let ghost cap = self.buf@.len() as int;
        let ghost s0 = self@;
        proof {
            self.lemma_inv();
        }
        let p = self.slot_of(self.len - 1);
        self.len = self.len - 1;
        let mut slot: Option<T> = None;
        std::mem::swap(&mut self.buf[p], &mut slot);
        proof {
            assert(logical(cap, self.offset as int, p as int) == self.len);
            assert forall|q: int| 0 <= q < cap implies (#[trigger] self.buf@[q] is Some
                <==> occupied(cap, self.offset as int, self.len as int, q)) by {
                if q != p {
                    assert(logical(cap, self.offset as int, q) != logical(
                        cap,
                        self.offset as int,
                        p as int,
                    ));
                }
            }
            assert forall|i: int| 0 <= i < self.len implies phys(
                cap,
                self.offset as int,
                i,
            ) != p by {}
            assert(self@ =~= s0.drop_last());
            self.lemma_inv();
        }
        slot
    }

    /// The backing slots in physical order; the unoccupied ones are empty.
    pub fn as_slice(&self) -> (r: &[Option<T>])
        requires
            self.inv(),
        ensures
            r@ == self.slots(),
    {
        self.buf.as_slice()
    }


    /// Empties the slots in `from..to`, each of which holds a value.
    fn release_range(&mut self, from: usize, to: usize)
        requires
            from <= to <= old(self).buf@.len(),
            forall|p: int| from <= p < to ==> #[trigger] old(self).buf@[p] is Some,
        ensures
            final(self).buf@.len() == old(self).buf@.len(),
            final(self).len == old(self).len,
            final(self).offset == old(self).offset,
            forall|p: int|
                0 <= p < old(self).buf@.len() ==> #[trigger] final(self).buf@[p] == if from <= p
                    < to {
                    None
                } else {
                    old(self).buf@[p]
                },
    {
        let mut k: usize = from;
        while k < to
            invariant
                from <= k <= to,
                to <= self.buf@.len(),
                self.buf@.len() == old(self).buf@.len(),
                self.len == old(self).len,
                self.offset == old(self).offset,
                forall|p: int|
                    0 <= p < self.buf@.len() ==> #[trigger] self.buf@[p] == if from <= p < k {
                        None
                    } else {
                        old(self).buf@[p]
                    },
            decreases to - k,
        {
            self.buf.set(k, None);
            k = k + 1;
        }
    }

    /// Drops every live element and leaves the stack empty. The occupied
    /// slots are released as one or two contiguous physical ranges, each slot
    /// once; the count of released elements is returned.
    pub fn clear(&mut self) -> (n: usize)
        requires
            old(self).inv(),
        ensures
            final(self).inv(),
            final(self).cap() == old(self).cap(),
            final(self)@ == Seq::<T>::empty(),
            n == old(self)@.len(),
            forall|p: int| 0 <= p < final(self).cap() ==> #[trigger] final(self).slots()[p] is None,
    {
        let ghost cap = self.buf@.len() as int;
        let ghost off = self.offset as int;
        let n = self.len;
        proof {
            lemma_release_ranges_exact(cap, off, n as int);
        }
        let size = self.buf.len();
        if self.len < size && self.offset != 0 {
            if self.len <= size - self.offset {
                let end = self.offset + self.len;
                self.release_range(self.offset, end);
            } else {
                let first = size - self.offset;
                self.release_range(self.offset, size);
                assert forall|p: int| 0 <= p < n - first implies #[trigger] self.buf@[p] is Some by {
                    assert(in_release_ranges(cap, off, n as int, p));
                }
                self.release_range(0, n - first);
            }
        } else {
            self.release_range(0, n);
        }
        self.len = 0;
        proof {
            assert forall|p: int| 0 <= p < cap implies #[trigger] self.buf@[p] is None by {
                assert(in_release_ranges(cap, off, n as int, p) == (old(self).buf@[p] is Some));
            }
            assert(self@ =~= Seq::<T>::empty());
            self.lemma_inv();
        }
        n
    }


    /// A cursor over the live elements, oldest to newest, from either end.
    pub fn iter(&self) -> (r: Iter<'_, T>)
        requires
            self.inv(),
        ensures
            r.inv(),
            r@ == self@,
    {
        proof {
            self.lemma_inv();
        }
        Iter { buf: self.buf.as_slice(), remain: self.len, offset: self.offset }
    }

}

/// A cursor over the live elements of a `LoopedStack`.
pub struct Iter<'a, T> {
    buf: &'a [Option<T>],
    remain: usize,
    offset: usize,
}

impl<'a, T> View for Iter<'a, T> {
    type V = Seq<T>;

    /// The elements not yet handed out, in logical order.
    closed spec fn view(&self) -> Seq<T> {
        Seq::new(
            self.remain as nat,
            |i: int| self.buf@[phys(self.buf@.len() as int, self.offset as int, i)]->Some_0,
        )
    }
}

impl<'a, T> Iter<'a, T> {
    /// The slots ahead of the cursor hold a value each.
    pub closed spec fn inv(&self) -> bool {
        &&& self.buf@.len() > 0
        &&& self.remain <= self.buf@.len()
        &&& self.offset < self.buf@.len()
        &&& forall|i: int|
            0 <= i < self.remain ==> #[trigger] self.buf@[phys(
                self.buf@.len() as int,
                self.offset as int,
                i,
            )] is Some
    }

    /// Hands out the oldest element not yet handed out.
    pub fn next(&mut self) -> (r: Option<&'a T>)
        requires
            old(self).inv(),
        ensures
            final(self).inv(),
            old(self)@.len() == 0 ==> r is None && final(self)@ == old(self)@,
            old(self)@.len() > 0 ==> r == Some(&old(self)@[0]) && final(self)@
                == old(self)@.drop_first(),
    {
        if self.remain == 0 {
            return None;
        }
        let ghost s0 = self@;
        let ghost cap = self.buf@.len() as int;
        let ghost off = self.offset as int;
        let val = self.buf[self.offset].as_ref();
        self.offset = if self.offset + 1 == self.buf.len() {
            0
        } else {
            self.offset + 1
        };
        self.remain = self.remain - 1;
        proof {
            assert forall|i: int| 0 <= i < self.remain implies phys(cap, self.offset as int, i)
                == phys(cap, off, i + 1) by {}
            assert(self@ =~= s0.drop_first());
        }
        val
    }

    /// Hands out the newest element not yet handed out.
    pub fn next_back(&mut self) -> (r: Option<&'a T>)
        requires
            old(self).inv(),
        ensures
            final(self).inv(),
            old(self)@.len() == 0 ==> r is None && final(self)@ == old(self)@,
            old(self)@.len() > 0 ==> r == Some(&old(self)@.last()) && final(self)@
                == old(self)@.drop_last(),
    {
        if self.remain == 0 {
            return None;
        }
        let ghost s0 = self@;
        self.remain = self.remain - 1;
        let cap = self.buf.len();
        let p = if self.remain < cap - self.offset {
            self.offset + self.remain
        } else {
            self.remain - (cap - self.offset)
        };
        proof {
            assert(self@ =~= s0.drop_last());
        }
        self.buf[p].as_ref()
    }
}

} // verus!
