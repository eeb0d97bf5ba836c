//! Paged stack of (flag, payload) slots: a chain of buffers, the newest on
//! top, each filled from its lowest slot upwards.
//!
//! Flag 0 marks a slot that holds nothing yet and flag 1 a hole, a slot that
//! was filled and given up again.  Every other flag marks an item.

use crate::rand::XorRand;
use crate::utils::{align_padding, padding_to, CACHE_LINE_SIZE};
use vstd::prelude::*;

verus! {

/// The flag of a slot that holds nothing yet.
pub const EMPTY_SLOT: usize = 0;

/// The flag of a hole.
pub const SENTINEL_SLOT: usize = 1;

/// Slots per buffer of a list made by `new`.
pub const DEFAULT_BUFFER_CAP: usize = 512;

/// A drain pops item by item while the list holds fewer items than the
/// smaller of this and half a buffer.
pub const POP_THRESHOLD_LIMIT: usize = 64;

/// The flag under which an object list keeps its objects.
pub const OBJECT_FLAG: usize = usize::MAX;

/// One slot: flag and payload.
pub type Slot<T> = (usize, T);

/// The slot holds an item.
pub open spec fn is_item<T>(slot: Slot<T>) -> bool {
    slot.0 != EMPTY_SLOT && slot.0 != SENTINEL_SLOT
}

/// The items among the slots `s`, lowest slot first.
pub open spec fn live_items<T>(s: Seq<Slot<T>>) -> Seq<Slot<T>>
    decreases s.len(),
{
    if s.len() == 0 {
        Seq::empty()
    } else if is_item(s.last()) {
        live_items(s.drop_last()).push(s.last())
    } else {
        live_items(s.drop_last())
    }
}

/// The items of a chain of buffers, oldest buffer first.
pub open spec fn chain_items<T>(bufs: Seq<Seq<Slot<T>>>) -> Seq<Slot<T>>
    decreases bufs.len(),
{
    if bufs.len() == 0 {
        Seq::empty()
    } else {
        chain_items(bufs.drop_last()) + live_items(bufs.last())
    }
}

/// The items of a chain in the order in which a buffer-wise drain meets
/// them: newest buffer first, and within a buffer lowest slot first.
pub open spec fn flush_order<T>(bufs: Seq<Seq<Slot<T>>>) -> Seq<Slot<T>>
    decreases bufs.len(),
{
    if bufs.len() == 0 {
        Seq::empty()
    } else {
        live_items(bufs.last()) + flush_order(bufs.drop_last())
    }
}

/// The total number of slots in a chain.
pub open spec fn chain_slots<T>(bufs: Seq<Seq<Slot<T>>>) -> nat
    decreases bufs.len(),
{
    if bufs.len() == 0 {
        0
    } else {
        chain_slots(bufs.drop_last()) + bufs.last().len()
    }
}

/// The number of items at which a list with buffers of `buffer_cap` slots
/// stops draining by pops.
pub open spec fn pop_threshold(buffer_cap: usize) -> nat {
    if buffer_cap / 2 < POP_THRESHOLD_LIMIT {
        (buffer_cap / 2) as nat
    } else {
        POP_THRESHOLD_LIMIT as nat
    }
}

/// One buffer: the slots filled so far, lowest first, and the number of
/// slots that it has room for.  The head index of the buffer is the number of
/// its filled slots.
pub struct BufferMeta<T> {
    slots: Vec<Slot<T>>,
    cap: usize,
}

impl<T> BufferMeta<T> {
    /// The filled slots.
    pub closed spec fn view(&self) -> Seq<Slot<T>> {
        self.slots@
    }

    /// The number of slots that the buffer has room for.
    pub closed spec fn spec_cap(&self) -> usize {
        self.cap
    }

    /// The head index lies between 0 and the number of slots.
    pub open spec fn wf(&self) -> bool {
        self@.len() <= self.spec_cap()
    }

    /// An empty buffer.
    pub fn new(buffer_cap: usize) -> (r: Self)
        ensures
            r@ == Seq::<Slot<T>>::empty(),
            r.spec_cap() == buffer_cap,
            r.wf(),
    {
        BufferMeta { slots: Vec::with_capacity(buffer_cap), cap: buffer_cap }
    }

    /// The number of filled slots.
    pub fn head(&self) -> (r: usize)
        ensures
            r == self@.len(),
    {
        self.slots.len()
    }
}

impl<T: Copy> BufferMeta<T> {
    /// Hands over what a buffer that leaves the chain still holds: its filled
    /// slots from the lowest up, without those that were emptied or closed.
    pub fn flush_buffer(&self, out: &mut Vec<Slot<T>>)
        ensures
            final(out)@ == old(out)@ + live_items(self@),
    {
        let ghost out0 = out@;
        let mut j: usize = 0;
        while j < self.slots.len()
            invariant
                0 <= j <= self.slots@.len(),
                out@ == out0 + live_items(self.slots@.take(j as int)),
            decreases self.slots@.len() - j,
        {
            let slot = self.slots[j];
            proof {
                lemma_live_items_take(self.slots@, j as int);
            }
            if slot.0 != EMPTY_SLOT && slot.0 != SENTINEL_SLOT {
                out.push(slot);
                assert(out@ =~= out0 + live_items(self.slots@.take(j as int + 1)));
            }
            j = j + 1;
        }
        proof {
            assert(self.slots@.take(self.slots@.len() as int) =~= self.slots@);
        }
    }
}

/// The paged stack.
pub struct List<T> {
    buffers: Vec<BufferMeta<T>>,
    count: usize,
    buffer_cap: usize,
}

impl<T> List<T> {
    /// The buffers, oldest first, each as its filled slots.
    pub closed spec fn chain(&self) -> Seq<Seq<Slot<T>>> {
        self.buffers@.map_values(|b: BufferMeta<T>| b@)
    }

    /// The number of slots per buffer.
    pub closed spec fn spec_buffer_cap(&self) -> usize {
        self.buffer_cap
    }

    /// The number of slots that each buffer has room for, oldest buffer first.
    pub closed spec fn caps(&self) -> Seq<usize> {
        self.buffers@.map_values(|b: BufferMeta<T>| b.spec_cap())
    }

    /// The head index of every buffer lies between 0 and the number of its
    /// slots.
    pub proof fn lemma_heads(&self)
        requires
            self.wf(),
        ensures
            self.caps().len() == self.chain().len(),
            forall|i: int| 0 <= i < self.chain().len() ==> (#[trigger] self.chain()[i]).len() <= self.caps()[i],
    {
        assert forall|i: int| 0 <= i < self.chain().len() implies (#[trigger] self.chain()[i]).len()
            <= self.caps()[i] by {
            assert(self.buffers@[i].wf());
        }
    }

    /// The list is consistent: it has a head buffer, no buffer holds more
    /// slots than it has room for, and the counter is the number of the items.
    pub closed spec fn wf(&self) -> bool {
        &&& self.buffers@.len() > 0
        &&& self.buffer_cap > 0
        &&& self.count == chain_items(self.chain()).len()
        &&& forall|i: int| 0 <= i < self.buffers@.len() ==> (#[trigger] self.buffers@[i]).wf()
    }

    /// The items, oldest first: the last one is the next to be popped.
    pub closed spec fn view(&self) -> Seq<Slot<T>> {
        chain_items(self.chain())
    }

    /// The items in the order in which `drop_out_all` hands them out: as pops
    /// would where the list is short, buffer by buffer otherwise.
    pub closed spec fn spec_drained(&self) -> Seq<Slot<T>> {
        if self.count < pop_threshold(self.buffer_cap) {
            self@.reverse()
        } else {
            flush_order(self.chain())
        }
    }
}

proof fn lemma_chain_push_slot<T>(bufs: Seq<Seq<Slot<T>>>, slot: Slot<T>)
    requires
        bufs.len() > 0,
    ensures
        chain_items(bufs.drop_last().push(bufs.last().push(slot))) == if is_item(slot) {
            chain_items(bufs).push(slot)
        } else {
            chain_items(bufs)
        },
        chain_slots(bufs.drop_last().push(bufs.last().push(slot))) == chain_slots(bufs) + 1,
{
    let grown = bufs.drop_last().push(bufs.last().push(slot));
    assert(grown.drop_last() =~= bufs.drop_last());
    assert(grown.last() == bufs.last().push(slot));
    assert(bufs.last().push(slot).drop_last() =~= bufs.last());
    if is_item(slot) {
        assert(chain_items(bufs.drop_last()) + live_items(bufs.last()).push(slot) =~= (chain_items(
            bufs.drop_last(),
        ) + live_items(bufs.last())).push(slot));
    }
}

proof fn lemma_chain_push_empty<T>(bufs: Seq<Seq<Slot<T>>>)
    ensures
        chain_items(bufs.push(Seq::empty())) == chain_items(bufs),
        chain_slots(bufs.push(Seq::empty())) == chain_slots(bufs),
        flush_order(bufs.push(Seq::empty())) == flush_order(bufs),
{
    let grown = bufs.push(Seq::<Slot<T>>::empty());
    assert(grown.drop_last() =~= bufs);
    assert(chain_items(bufs) + live_items(Seq::<Slot<T>>::empty()) =~= chain_items(bufs));
    assert(live_items(Seq::<Slot<T>>::empty()) + flush_order(bufs) =~= flush_order(bufs));
}

proof fn lemma_chain_concat<T>(a: Seq<Seq<Slot<T>>>, b: Seq<Seq<Slot<T>>>)
    ensures
        chain_items(a + b) == chain_items(a) + chain_items(b),
    decreases b.len(),
{
    if b.len() == 0 {
        assert(a + b =~= a);
        assert(chain_items(a) + chain_items(b) =~= chain_items(a));
    } else {
        lemma_chain_concat(a, b.drop_last());
        assert((a + b).drop_last() =~= a + b.drop_last());
        assert((a + b).last() == b.last());
        assert(chain_items(a) + (chain_items(b.drop_last()) + live_items(b.last())) =~= (
        chain_items(a) + chain_items(b.drop_last())) + live_items(b.last()));
    }
}

/// A buffer-wise drain hands out as many items as the chain holds.
pub proof fn lemma_flush_order_len<T>(bufs: Seq<Seq<Slot<T>>>)
    ensures
        flush_order(bufs).len() == chain_items(bufs).len(),
    decreases bufs.len(),
{
    if bufs.len() > 0 {
        lemma_flush_order_len(bufs.drop_last());
    }
}

/// A buffer-wise drain hands out the items of the chain, each once.
pub proof fn lemma_flush_order_multiset<T>(bufs: Seq<Seq<Slot<T>>>)
    ensures
        flush_order(bufs).to_multiset() == chain_items(bufs).to_multiset(),
    decreases bufs.len(),
{
    broadcast use vstd::seq_lib::group_to_multiset_ensures;

    if bufs.len() > 0 {
        lemma_flush_order_multiset(bufs.drop_last());
        vstd::seq_lib::lemma_multiset_commutative(live_items(bufs.last()), flush_order(bufs.drop_last()));
        vstd::seq_lib::lemma_multiset_commutative(chain_items(bufs.drop_last()), live_items(bufs.last()));
    }
}


proof fn lemma_live_items_take<T>(s: Seq<Slot<T>>, j: int)
    requires
        0 <= j < s.len(),
    ensures
        live_items(s.take(j + 1)) == if is_item(s[j]) {
            live_items(s.take(j)).push(s[j])
        } else {
            live_items(s.take(j))
        },
{
    assert(s.take(j + 1).drop_last() =~= s.take(j));
    assert(s.take(j + 1).last() == s[j]);
}

impl<T: Copy> List<T> {
    /// An empty list whose buffers have `buffer_cap` slots.
    pub fn new(buffer_cap: usize) -> (r: Self)
        requires
            buffer_cap > 0,
        ensures
            r.wf(),
            r@ == Seq::<Slot<T>>::empty(),
            r.spec_buffer_cap() == buffer_cap,
    {
        let mut buffers: Vec<BufferMeta<T>> = Vec::new();
        buffers.push(BufferMeta::new(buffer_cap));
        let r = List { buffers, count: 0, buffer_cap };
        proof {
            assert(r.chain() =~= Seq::<Seq<Slot<T>>>::empty().push(Seq::empty()));
            lemma_chain_push_empty(Seq::<Seq<Slot<T>>>::empty());
        }
        r
    }

    /// Puts the item `(flag, data)` on top.
    pub fn push(&mut self, flag: usize, data: T)
        requires
            old(self).wf(),
            flag != EMPTY_SLOT,
            flag != SENTINEL_SLOT,
            old(self)@.len() < usize::MAX,
        ensures
            final(self).wf(),
            final(self)@ == old(self)@.push((flag, data)),
            final(self).spec_buffer_cap() == old(self).spec_buffer_cap(),
    {
        self.do_push(flag, data);
        self.count = self.count + 1;
    }

    /// Writes the item into the next slot of the head buffer, behind a fresh
    /// head buffer where the old one is full.  The counter is left alone.
    fn do_push(&mut self, flag: usize, data: T)
        requires
            old(self).buffers@.len() > 0,
            old(self).buffer_cap > 0,
            forall|i: int| 0 <= i < old(self).buffers@.len() ==> (#[trigger] old(self).buffers@[i]).wf(),
            flag != EMPTY_SLOT,
            flag != SENTINEL_SLOT,
        ensures
            final(self).buffers@.len() > 0,
            forall|i: int| 0 <= i < final(self).buffers@.len() ==> (#[trigger] final(self).buffers@[i]).wf(),
            chain_items(final(self).chain()) == chain_items(old(self).chain()).push((flag, data)),
            final(self).count == old(self).count,
            final(self).buffer_cap == old(self).buffer_cap,
    {
        let ghost c0 = self.chain();
        let mut head = self.buffers.pop().unwrap();
        if head.slots.len() >= self.buffer_cap || head.slots.len() >= head.cap {
            // The head buffer is full: link a new one in front of it.
            self.buffers.push(head);
            head = BufferMeta::new(self.buffer_cap);
            proof {
                assert(self.chain() =~= c0);
                lemma_chain_push_empty(c0);
                lemma_chain_push_slot(c0.push(Seq::empty()), (flag, data));
                assert(c0.push(Seq::<Slot<T>>::empty()).drop_last() =~= c0);
            }
            head.slots.push((flag, data));
            self.buffers.push(head);
            assert(self.chain() =~= c0.push(Seq::<Slot<T>>::empty().push((flag, data))));
        } else {
            proof {
                assert(self.chain() =~= c0.drop_last());
                lemma_chain_push_slot(c0, (flag, data));
            }
            head.slots.push((flag, data));
            self.buffers.push(head);
            assert(self.chain() =~= c0.drop_last().push(c0.last().push((flag, data))));
        }
    }

    /// Puts the item `(flag, data)` on top, for a caller that knows that no
    /// one else is pushing.
    pub fn exclusive_push(&mut self, flag: usize, data: T)
        requires
            old(self).wf(),
            flag != EMPTY_SLOT,
            flag != SENTINEL_SLOT,
            old(self)@.len() < usize::MAX,
        ensures
            final(self).wf(),
            final(self)@ == old(self)@.push((flag, data)),
            final(self).spec_buffer_cap() == old(self).spec_buffer_cap(),
    {
        self.do_push(flag, data);
        self.count = self.count + 1;
    }

    /// Takes the top item off.  Holes on the way to it are dropped, and so
    /// are head buffers that have run empty.
    pub fn pop(&mut self) -> (r: Option<Slot<T>>)
        requires
            old(self).wf(),
        ensures
            final(self).wf(),
            final(self).spec_buffer_cap() == old(self).spec_buffer_cap(),
            old(self)@.len() == 0 ==> r is None && final(self)@ == old(self)@,
            old(self)@.len() > 0 ==> r == Some(old(self)@.last()) && final(self)@ == old(self)@.drop_last(),
    {
        if self.count == 0 {
            return None;
        }
        loop
            invariant
                self.buffers@.len() > 0,
                self.buffer_cap == old(self).buffer_cap,
                self.buffer_cap > 0,
                self.count == old(self).count,
                forall|i: int| 0 <= i < self.buffers@.len() ==> (#[trigger] self.buffers@[i]).wf(),
                chain_items(self.chain()) == old(self)@,
                old(self)@.len() > 0,
                self.count == old(self)@.len(),
            decreases chain_slots(self.chain()) + self.buffers@.len(),
        {
            let ghost c = self.chain();
            let mut head = self.buffers.pop().unwrap();
            assert(self.chain() =~= c.drop_last());
            if head.slots.len() == 0 {
                proof {
                    assert(live_items(c.last()) =~= Seq::<Slot<T>>::empty());
                    assert(chain_items(c.drop_last()) + live_items(c.last()) =~= chain_items(
                        c.drop_last(),
                    ));
                }
                if self.buffers.len() == 0 {
                    // The chain is empty.
                    self.buffers.push(head);
                    return None;
                }
                // The head buffer has run empty: the next older one becomes the head.
                continue ;
            }
            let slot = head.slots.pop().unwrap();
            self.buffers.push(head);
            proof {
                let shrunk = c.drop_last().push(c.last().drop_last());
                assert(self.chain() =~= shrunk);
                assert(shrunk.drop_last() =~= c.drop_last());
                assert(c.last() =~= c.last().drop_last().push(slot));
                assert(c =~= shrunk.drop_last().push(shrunk.last().push(slot)));
                lemma_chain_push_slot(shrunk, slot);
            }
            if slot.0 != EMPTY_SLOT && slot.0 != SENTINEL_SLOT {
                self.count = self.count - 1;
                proof {
                    assert(old(self)@.drop_last() =~= chain_items(self.chain()));
                }
                return Some(slot);
            }
        }
    }

    /// The number of items.
    pub fn count(&self) -> (r: usize)
        requires
            self.wf(),
        ensures
            r == self@.len(),
    {
        self.count
    }

    /// Takes every item out and hands them over in the order `spec_drained`.
    pub fn drop_out_all(&mut self) -> (r: Vec<Slot<T>>)
        requires
            old(self).wf(),
        ensures
            final(self).wf(),
            final(self).spec_buffer_cap() == old(self).spec_buffer_cap(),
            final(self)@ == Seq::<Slot<T>>::empty(),
            r@ == old(self).spec_drained(),
            old(self)@.len() < pop_threshold(old(self).spec_buffer_cap()) ==> r@ == old(self)@.reverse(),
    {
        let mut out: Vec<Slot<T>> = Vec::new();
        let count: usize = self.count;
        let half: usize = self.buffer_cap / 2;
        let threshold: usize = if half < POP_THRESHOLD_LIMIT {
            half
        } else {
            POP_THRESHOLD_LIMIT
        };
        let ghost v0 = self@;
        let ghost c0 = self.chain();
        if count == 0 {
            proof {
                assert(v0.reverse() =~= Seq::<Slot<T>>::empty());
                lemma_flush_order_len(c0);
                assert(flush_order(c0).len() == 0);
                assert(flush_order(c0) =~= Seq::<Slot<T>>::empty());
            }
            return out;
        }
        if count < threshold {
            let pop_amount: usize = threshold * 2;
            let mut popped: usize = 0;
            while popped < pop_amount
                invariant
                    self.wf(),
                    old(self).wf(),
                    self.buffer_cap == old(self).buffer_cap,
                    v0 == old(self)@,
                    count == v0.len(),
                    count == old(self).count,
                    threshold == pop_threshold(old(self).buffer_cap),
                    count < threshold,
                    pop_amount == threshold * 2,
                    popped <= count,
                    self@ == v0.take(count - popped),
                    out@ == v0.skip(count - popped).reverse(),
                decreases pop_amount - popped,
            {
                let ghost before = out@;
                match self.pop() {
                    Some(pair) => {
                        out.push(pair);
                        proof {
                            let n = count - popped;
                            assert(v0.take(n).drop_last() =~= v0.take(n - 1));
                            assert(out@ =~= v0.skip(n - 1).reverse());
                        }
                    },
                    None => {
                        proof {
                            assert(v0.take(count - popped).len() == count - popped);
                            assert(v0.skip(0) =~= v0);
                        }
                        return out;
                    },
                }
                popped = popped + 1;
            }
        }
        // The chain is taken off as a whole and walked from its newest buffer.

        let mut detached: Vec<BufferMeta<T>> = Vec::new();
        detached.push(BufferMeta::new(self.buffer_cap));
        core::mem::swap(&mut self.buffers, &mut detached);
        self.count = 0;
        proof {
            assert(self.chain() =~= Seq::<Seq<Slot<T>>>::empty().push(Seq::empty()));
            lemma_chain_push_empty(Seq::<Seq<Slot<T>>>::empty());
        }
        while detached.len() > 0
            invariant
                self.wf(),
                self@ == Seq::<Slot<T>>::empty(),
                self.buffer_cap == old(self).buffer_cap,
                out@ + flush_order(detached@.map_values(|b: BufferMeta<T>| b@)) == flush_order(c0),
            decreases detached.len(),
        {
            let ghost rest = detached@.map_values(|b: BufferMeta<T>| b@);
            let ghost out0 = out@;
            let buffer = detached.pop().unwrap();
            assert(detached@.map_values(|b: BufferMeta<T>| b@) =~= rest.drop_last());
            buffer.flush_buffer(&mut out);
            proof {
                assert(out@ + flush_order(rest.drop_last()) =~= out0 + (live_items(rest.last())
                    + flush_order(rest.drop_last())));
            }
        }
        proof {
            assert(out@ + Seq::<Slot<T>>::empty() =~= out@);
        }
        out
    }

    /// Moves every item of `other` on top of this list, in their order.
    pub fn prepend_with(&mut self, other: &mut Self)
        requires
            old(self).wf(),
            old(other).wf(),
            old(self)@.len() + old(other)@.len() <= usize::MAX,
        ensures
            final(self).wf(),
            final(other).wf(),
            final(self)@ == old(self)@ + old(other)@,
            final(other)@ == Seq::<Slot<T>>::empty(),
            final(self).spec_buffer_cap() == old(self).spec_buffer_cap(),
            final(other).spec_buffer_cap() == old(other).spec_buffer_cap(),
    {
        if other.count == 0 {
            assert(self@ + other@ =~= self@);
            return ;
        }
        let ghost mine = self.chain();
        let ghost theirs = other.chain();
        let mut moved: Vec<BufferMeta<T>> = Vec::new();
        moved.push(BufferMeta::new(self.buffer_cap));
        core::mem::swap(&mut other.buffers, &mut moved);
        let other_count: usize = other.count;
        other.count = 0;
        self.buffers.append(&mut moved);
        self.count = self.count + other_count;
        proof {
            assert(other.chain() =~= Seq::<Seq<Slot<T>>>::empty().push(Seq::empty()));
            lemma_chain_push_empty(Seq::<Seq<Slot<T>>>::empty());
            assert(self.chain() =~= mine + theirs);
            lemma_chain_concat(mine, theirs);
        }
    }

    /// An iterator over the items, newest first.
    pub fn iter(&self) -> (r: ListIterator<'_, T>)
        requires
            self.wf(),
        ensures
            r.wf(),
            r@ == self@,
    {
        let buffer: usize = self.buffers.len() - 1;
        let current: usize = self.buffers[buffer].slots.len();
        let r = ListIterator { list: self, buffer, current };
        proof {
            let c = self.chain();
            assert(c.take(buffer as int) =~= c.drop_last());
            assert(c[buffer as int].take(current as int) =~= c.last());
        }
        r
    }
}

/// A walk over the items of a list, from the newest to the oldest.
pub struct ListIterator<'a, T> {
    list: &'a List<T>,
    buffer: usize,
    current: usize,
}

impl<'a, T: Copy> ListIterator<'a, T> {
    /// The walk points into its list.
    pub closed spec fn wf(&self) -> bool {
        &&& self.buffer < self.list.buffers@.len()
        &&& self.current <= self.list.buffers@[self.buffer as int]@.len()
    }

    /// The items still to come, oldest first: the walk hands out the last one
    /// next.
    pub closed spec fn view(&self) -> Seq<Slot<T>> {
        chain_items(self.list.chain().take(self.buffer as int)) + live_items(
            self.list.chain()[self.buffer as int].take(self.current as int),
        )
    }

    /// The next item, or nothing where the walk is over.
    pub fn next(&mut self) -> (r: Option<Slot<T>>)
        requires
            old(self).wf(),
        ensures
            final(self).wf(),
            old(self)@.len() == 0 ==> r is None && final(self)@ == old(self)@,
            old(self)@.len() > 0 ==> r == Some(old(self)@.last()) && final(self)@ == old(self)@.drop_last(),
    {
        let ghost c = self.list.chain();
        loop
            invariant
                self.wf(),
                self.list == old(self).list,
                c == self.list.chain(),
                self@ == old(self)@,
            decreases self.buffer, self.current,
        {
            if self.current == 0 {
                proof {
                    assert(c[self.buffer as int].take(0) =~= Seq::<Slot<T>>::empty());
                    assert(self@ =~= chain_items(c.take(self.buffer as int)));
                }
                if self.buffer == 0 {
                    proof {
                        assert(c.take(0) =~= Seq::<Seq<Slot<T>>>::empty());
                    }
                    return None;
                }
                self.buffer = self.buffer - 1;
                self.current = self.list.buffers[self.buffer].slots.len();
                proof {
                    let b = self.buffer as int;
                    assert(c.take(b + 1).drop_last() =~= c.take(b));
                    assert(c.take(b + 1).last() == c[b]);
                    assert(c[b].take(self.current as int) =~= c[b]);
                }
                continue ;
            }
            let slot = self.list.buffers[self.buffer].slots[self.current - 1];
            proof {
                lemma_live_items_take(c[self.buffer as int], self.current as int - 1);
            }
            self.current = self.current - 1;
            if slot.0 != EMPTY_SLOT && slot.0 != SENTINEL_SLOT {
                proof {
                    let rest = chain_items(c.take(self.buffer as int));
                    let low = live_items(c[self.buffer as int].take(self.current as int));
                    assert(rest + low.push(slot) =~= (rest + low).push(slot));
                    assert((rest + low).push(slot).drop_last() =~= rest + low);
                }
                return Some(slot);
            }
        }
    }
}


impl<T> List<T> {
    /// A short list is drained as pops would drain it: newest item first.
    pub proof fn lemma_drained_short(&self)
        requires
            self.wf(),
            self@.len() < pop_threshold(self.spec_buffer_cap()),
        ensures
            self.spec_drained() == self@.reverse(),
    {
    }

    /// Whatever the order of a drain, it hands out the items of the list,
    /// each once.
    pub proof fn lemma_drained_items(&self)
        requires
            self.wf(),
        ensures
            self.spec_drained().to_multiset() == self@.to_multiset(),
            self.spec_drained().len() == self@.len(),
    {
        lemma_flush_order_multiset(self.chain());
        lemma_flush_order_len(self.chain());
        lemma_reverse_multiset(self@);
    }
}

/// The list that pushing `items` one after the other makes of `s`.
pub open spec fn push_each<T>(s: Seq<Slot<T>>, items: Seq<Slot<T>>) -> Seq<Slot<T>>
    decreases items.len(),
{
    if items.len() == 0 {
        s
    } else {
        push_each(s, items.drop_last()).push(items.last())
    }
}

/// What popping `s` until it is empty yields, first pop first.
pub open spec fn pop_each<T>(s: Seq<Slot<T>>) -> Seq<Slot<T>>
    decreases s.len(),
{
    if s.len() == 0 {
        Seq::empty()
    } else {
        seq![s.last()] + pop_each(s.drop_last())
    }
}

/// A sequence and its reverse hold the same items.
pub proof fn lemma_reverse_multiset<A>(s: Seq<A>)
    ensures
        s.reverse().to_multiset() == s.to_multiset(),
    decreases s.len(),
{
    broadcast use vstd::seq_lib::group_to_multiset_ensures;

    if s.len() == 0 {
        assert(s.reverse() =~= s);
    } else {
        lemma_reverse_multiset(s.drop_last());
        assert(s.reverse() =~= s.drop_last().reverse().insert(0, s.last()));
        assert(s =~= s.drop_last().push(s.last()));
        vstd::seq_lib::to_multiset_insert(s.drop_last().reverse(), 0, s.last());
    }
}

/// Pushing any sequence of items onto an empty list and popping until the
/// list is empty yields the items pushed, last pushed first: the same items,
/// each as often as it was pushed.
pub proof fn lemma_push_pop_round_trip<T>(items: Seq<Slot<T>>)
    ensures
        pop_each(push_each(Seq::empty(), items)) == items.reverse(),
        pop_each(push_each(Seq::empty(), items)).to_multiset() == items.to_multiset(),
{
    lemma_push_each(items);
    lemma_pop_each(items);
    lemma_reverse_multiset(items);
}

proof fn lemma_push_each<T>(items: Seq<Slot<T>>)
    ensures
        push_each(Seq::empty(), items) == items,
    decreases items.len(),
{
    if items.len() > 0 {
        lemma_push_each(items.drop_last());
        assert(items.drop_last().push(items.last()) =~= items);
    } else {
        assert(items =~= Seq::<Slot<T>>::empty());
    }
}

proof fn lemma_pop_each<T>(s: Seq<Slot<T>>)
    ensures
        pop_each(s) == s.reverse(),
    decreases s.len(),
{
    if s.len() > 0 {
        lemma_pop_each(s.drop_last());
        assert(seq![s.last()] + s.drop_last().reverse() =~= s.reverse());
    } else {
        assert(s.reverse() =~= Seq::<Slot<T>>::empty());
    }
}

/// A stack of words: each word is kept as the flag of its slot.
pub struct WordList {
    inner: List<()>,
}

impl WordList {
    /// The stack is consistent.
    pub closed spec fn wf(&self) -> bool {
        self.inner.wf()
    }

    /// The number of slots per buffer.
    pub closed spec fn spec_buffer_cap(&self) -> usize {
        self.inner.spec_buffer_cap()
    }

    /// The words, oldest first.
    pub closed spec fn view(&self) -> Seq<usize> {
        self.inner@.map_values(|slot: Slot<()>| slot.0)
    }

    /// The words as slots, oldest first.
    pub closed spec fn slots(&self) -> Seq<Slot<()>> {
        self.inner@
    }

    /// The slots in the order in which `drop_out_all` hands them out.
    pub closed spec fn spec_drained(&self) -> Seq<Slot<()>> {
        self.inner.spec_drained()
    }

    /// The words are the flags of the slots.
    pub proof fn lemma_slots(&self)
        ensures
            self@ == self.slots().map_values(|slot: Slot<()>| slot.0),
            self@.len() == self.slots().len(),
    {
    }

    /// A short stack is drained as pops would drain it: newest first.
    pub proof fn lemma_drained_short(&self)
        requires
            self.wf(),
            self@.len() < pop_threshold(self.spec_buffer_cap()),
        ensures
            self.spec_drained() == self.slots().reverse(),
            self.spec_drained().map_values(|slot: Slot<()>| slot.0) == self@.reverse(),
    {
        self.inner.lemma_drained_short();
        assert(self.slots().reverse().map_values(|slot: Slot<()>| slot.0) =~= self@.reverse());
    }

    /// An empty stack whose buffers have `cap` slots.
    pub fn with_capacity(cap: usize) -> (r: Self)
        requires
            cap > 0,
        ensures
            r.wf(),
            r@ == Seq::<usize>::empty(),
            r.spec_buffer_cap() == cap,
    {
        let r = Self { inner: List::new(cap) };
        assert(r@ =~= Seq::<usize>::empty());
        r
    }

    /// An empty stack with buffers of the default size.
    pub fn new() -> (r: Self)
        ensures
            r.wf(),
            r@ == Seq::<usize>::empty(),
            r.spec_buffer_cap() == DEFAULT_BUFFER_CAP,
    {
        Self::with_capacity(DEFAULT_BUFFER_CAP)
    }

    /// Puts `data` on top.
    pub fn push(&mut self, data: usize)
        requires
            old(self).wf(),
            data != EMPTY_SLOT,
            data != SENTINEL_SLOT,
            old(self)@.len() < usize::MAX,
        ensures
            final(self).wf(),
            final(self).spec_buffer_cap() == old(self).spec_buffer_cap(),
            final(self)@ == old(self)@.push(data),
    {
        self.inner.push(data, ());
        assert(self@ =~= old(self)@.push(data));
    }

    /// Puts `data` on top, for a caller that knows that no one else is pushing.
    pub fn exclusive_push(&mut self, data: usize)
        requires
            old(self).wf(),
            data != EMPTY_SLOT,
            data != SENTINEL_SLOT,
            old(self)@.len() < usize::MAX,
        ensures
            final(self).wf(),
            final(self).spec_buffer_cap() == old(self).spec_buffer_cap(),
            final(self)@ == old(self)@.push(data),
    {
        self.inner.exclusive_push(data, ());
        assert(self@ =~= old(self)@.push(data));
    }

    /// Takes the top word off.
    pub fn pop(&mut self) -> (r: Option<usize>)
        requires
            old(self).wf(),
        ensures
            final(self).wf(),
            final(self).spec_buffer_cap() == old(self).spec_buffer_cap(),
            old(self)@.len() == 0 ==> r is None && final(self)@ == old(self)@,
            old(self)@.len() > 0 ==> r == Some(old(self)@.last()) && final(self)@ == old(self)@.drop_last(),
    {
        let r = self.inner.pop();
        match r {
            Some(slot) => {
                assert(self@ =~= old(self)@.drop_last());
                Some(slot.0)
            },
            None => None,
        }
    }

    /// Takes every word out and hands them over as slots, in the order
    /// `spec_drained`.
    pub fn drop_out_all(&mut self) -> (r: Vec<Slot<()>>)
        requires
            old(self).wf(),
        ensures
            final(self).wf(),
            final(self).spec_buffer_cap() == old(self).spec_buffer_cap(),
            final(self)@ == Seq::<usize>::empty(),
            r@ == old(self).spec_drained(),
            old(self)@.len() < pop_threshold(old(self).spec_buffer_cap()) ==> r@ == old(self).slots().reverse(),
            r@.to_multiset() == old(self).slots().to_multiset(),
            r@.len() == old(self)@.len(),
    {
        proof {
            self.inner.lemma_drained_items();
        }
        let r = self.inner.drop_out_all();
        assert(self@ =~= Seq::<usize>::empty());
        r
    }

    /// Moves every word of `other` on top of this stack, in their order.
    pub fn prepend_with(&mut self, other: &mut Self)
        requires
            old(self).wf(),
            old(other).wf(),
            old(self)@.len() + old(other)@.len() <= usize::MAX,
        ensures
            final(self).wf(),
            final(self).spec_buffer_cap() == old(self).spec_buffer_cap(),
            final(other).wf(),
            final(other).spec_buffer_cap() == old(other).spec_buffer_cap(),
            final(self)@ == old(self)@ + old(other)@,
            final(other)@ == Seq::<usize>::empty(),
    {
        self.inner.prepend_with(&mut other.inner);
        assert(self@ =~= old(self)@ + old(other)@);
        assert(other@ =~= Seq::<usize>::empty());
    }

    /// The number of words.
    pub fn count(&self) -> (r: usize)
        requires
            self.wf(),
        ensures
            r == self@.len(),
    {
        self.inner.count()
    }

    /// A walk over the words as slots, newest first.
    pub fn iter(&self) -> (r: ListIterator<'_, ()>)
        requires
            self.wf(),
        ensures
            r.wf(),
            r@ == self.slots(),
    {
        self.inner.iter()
    }
}

/// A stack of objects, all kept under the flag `OBJECT_FLAG`.
pub struct ObjectList<T> {
    inner: List<T>,
}

impl<T: Copy> ObjectList<T> {
    /// The stack is consistent.
    pub closed spec fn wf(&self) -> bool {
        self.inner.wf()
    }

    /// The number of slots per buffer.
    pub closed spec fn spec_buffer_cap(&self) -> usize {
        self.inner.spec_buffer_cap()
    }

    /// The objects, oldest first.
    pub closed spec fn view(&self) -> Seq<T> {
        self.inner@.map_values(|slot: Slot<T>| slot.1)
    }

    /// The objects as slots, oldest first.
    pub closed spec fn slots(&self) -> Seq<Slot<T>> {
        self.inner@
    }

    /// The slots in the order in which `drop_out_all` hands them out.
    pub closed spec fn spec_drained(&self) -> Seq<Slot<T>> {
        self.inner.spec_drained()
    }

    /// The objects are the payloads of the slots.
    pub proof fn lemma_slots(&self)
        ensures
            self@ == self.slots().map_values(|slot: Slot<T>| slot.1),
            self@.len() == self.slots().len(),
    {
    }

    /// A drain hands out the slots of the stack, each once.
    pub proof fn lemma_drained_order(&self)
        requires
            self.wf(),
        ensures
            self.spec_drained().to_multiset() == self.slots().to_multiset(),
            self.spec_drained().len() == self.slots().len(),
    {
        self.inner.lemma_drained_items();
    }

    /// A short stack is drained as pops would drain it: newest first.
    pub proof fn lemma_drained_short(&self)
        requires
            self.wf(),
            self@.len() < pop_threshold(self.spec_buffer_cap()),
        ensures
            self.spec_drained() == self.slots().reverse(),
            self.spec_drained().map_values(|slot: Slot<T>| slot.1) == self@.reverse(),
    {
        self.inner.lemma_drained_short();
        assert(self.slots().reverse().map_values(|slot: Slot<T>| slot.1) =~= self@.reverse());
    }

    /// An empty stack whose buffers have `cap` slots.
    pub fn with_capacity(cap: usize) -> (r: Self)
        requires
            cap > 0,
        ensures
            r.wf(),
            r@ == Seq::<T>::empty(),
            r.spec_buffer_cap() == cap,
    {
        let r = Self { inner: List::new(cap) };
        assert(r@ =~= Seq::<T>::empty());
        r
    }

    /// An empty stack with buffers of the default size.
    pub fn new() -> (r: Self)
        ensures
            r.wf(),
            r@ == Seq::<T>::empty(),
            r.spec_buffer_cap() == DEFAULT_BUFFER_CAP,
    {
        Self::with_capacity(DEFAULT_BUFFER_CAP)
    }

    /// Puts `data` on top.
    pub fn push(&mut self, data: T)
        requires
            old(self).wf(),
            old(self)@.len() < usize::MAX,
        ensures
            final(self).wf(),
            final(self).spec_buffer_cap() == old(self).spec_buffer_cap(),
            final(self)@ == old(self)@.push(data),
            final(self).slots() == old(self).slots().push((OBJECT_FLAG, data)),
    {
        self.inner.push(OBJECT_FLAG, data);
        assert(self@ =~= old(self)@.push(data));
    }

    /// Puts `data` on top, for a caller that knows that no one else is pushing.
    pub fn exclusive_push(&mut self, data: T)
        requires
            old(self).wf(),
            old(self)@.len() < usize::MAX,
        ensures
            final(self).wf(),
            final(self).spec_buffer_cap() == old(self).spec_buffer_cap(),
            final(self)@ == old(self)@.push(data),
            final(self).slots() == old(self).slots().push((OBJECT_FLAG, data)),
    {
        self.inner.exclusive_push(OBJECT_FLAG, data);
        assert(self@ =~= old(self)@.push(data));
    }

    /// Takes the top object off.
    pub fn pop(&mut self) -> (r: Option<T>)
        requires
            old(self).wf(),
        ensures
            final(self).wf(),
            final(self).spec_buffer_cap() == old(self).spec_buffer_cap(),
            old(self)@.len() == 0 ==> r is None && final(self)@ == old(self)@,
            old(self)@.len() > 0 ==> r == Some(old(self)@.last()) && final(self)@ == old(self)@.drop_last(),
    {
        let r = self.inner.pop();
        match r {
            Some(slot) => {
                assert(self@ =~= old(self)@.drop_last());
                Some(slot.1)
            },
            None => None,
        }
    }

    /// Takes every object out and hands them over as slots, in the order
    /// `spec_drained`.
    pub fn drop_out_all(&mut self) -> (r: Vec<Slot<T>>)
        requires
            old(self).wf(),
        ensures
            final(self).wf(),
            final(self).spec_buffer_cap() == old(self).spec_buffer_cap(),
            final(self)@ == Seq::<T>::empty(),
            r@ == old(self).spec_drained(),
            old(self)@.len() < pop_threshold(old(self).spec_buffer_cap()) ==> r@ == old(self).slots().reverse(),
            r@.to_multiset() == old(self).slots().to_multiset(),
            r@.len() == old(self)@.len(),
    {
        proof {
            self.inner.lemma_drained_items();
        }
        let r = self.inner.drop_out_all();
        assert(self@ =~= Seq::<T>::empty());
        r
    }

    /// Takes every object out and hands them over as slots, oldest first.
    pub fn drain_in_order(&mut self) -> (r: Vec<Slot<T>>)
        requires
            old(self).wf(),
        ensures
            final(self).wf(),
            final(self).spec_buffer_cap() == old(self).spec_buffer_cap(),
            final(self)@ == Seq::<T>::empty(),
            r@ == old(self).slots(),
    {
        let ghost all = self.inner@;
        let mut newest_first: Vec<Slot<T>> = Vec::new();
        loop
            invariant
                self.inner.wf(),
                self.inner.spec_buffer_cap() == old(self).inner.spec_buffer_cap(),
                all == old(self).inner@,
                newest_first@.len() <= all.len(),
                self.inner@ == all.take(all.len() - newest_first@.len()),
                forall|k: int|
                    0 <= k < newest_first@.len() ==> #[trigger] newest_first@[k] == all[all.len() - 1 - k],
            ensures
                newest_first@.len() == all.len(),
                self.inner@ == Seq::<Slot<T>>::empty(),
            decreases self.inner@.len(),
        {
            let ghost left = self.inner@;
            match self.inner.pop() {
                Some(slot) => {
                    newest_first.push(slot);
                    proof {
                        let n = all.len() - (newest_first@.len() - 1);
                        assert(left.len() == n);
                        assert(left.last() == all[n - 1]);
                        assert(left.drop_last() =~= all.take(n - 1));
                    }
                },
                None => {
                    proof {
                        assert(left.len() == 0);
                        assert(self.inner@ =~= Seq::<Slot<T>>::empty());
                    }
                    break ;
                },
            }
        }
        let mut out: Vec<Slot<T>> = Vec::new();
        let mut k: usize = newest_first.len();
        while k > 0
            invariant
                0 <= k <= newest_first@.len(),
                newest_first@.len() == all.len(),
                forall|j: int| 0 <= j < newest_first@.len() ==> #[trigger] newest_first@[j] == all[all.len() - 1 - j],
                out@ == all.take(all.len() - k),
            decreases k,
        {
            k = k - 1;
            out.push(newest_first[k]);
            proof {
                assert(out@ =~= all.take(all.len() - k));
            }
        }
        proof {
            assert(all.take(all.len() as int) =~= all);
            assert(self@ =~= Seq::<T>::empty());
        }
        out
    }

    /// Moves every object of `other` on top of this stack, in their order.
    pub fn prepend_with(&mut self, other: &mut Self)
        requires
            old(self).wf(),
            old(other).wf(),
            old(self)@.len() + old(other)@.len() <= usize::MAX,
        ensures
            final(self).wf(),
            final(self).spec_buffer_cap() == old(self).spec_buffer_cap(),
            final(other).wf(),
            final(other).spec_buffer_cap() == old(other).spec_buffer_cap(),
            final(self)@ == old(self)@ + old(other)@,
            final(other)@ == Seq::<T>::empty(),
    {
        self.inner.prepend_with(&mut other.inner);
        assert(self@ =~= old(self)@ + old(other)@);
        assert(other@ =~= Seq::<T>::empty());
    }

    /// The number of objects.
    pub fn count(&self) -> (r: usize)
        requires
            self.wf(),
        ensures
            r == self@.len(),
    {
        self.inner.count()
    }

    /// A walk over the objects as slots, newest first.
    pub fn iter(&self) -> (r: ListIterator<'_, T>)
        requires
            self.wf(),
        ensures
            r.wf(),
            r@ == self.slots(),
    {
        self.inner.iter()
    }
}

/// The state of a cell that nobody uses.
pub const EXCHANGE_EMPTY: usize = 0;

/// The state of a cell in which a caller has parked and waits.
pub const EXCHANGE_WAITING: usize = 1;

/// The state of a cell in which a second caller has met the first.
pub const EXCHANGE_BUSY: usize = 2;

/// The number of rounds that a parked caller waits for a partner.
pub const EXCHANGE_SPIN_WAIT: usize = 200;

/// Most cells that a channel has.
pub const MAXIMUM_EXCHANGE_SLOTS: usize = 16;

/// What goes through an exchange: the item of a push, or nothing from a pop.
pub type ExchangeData<T> = Option<Slot<T>>;

/// One cell of the exchange channel.  A caller parks what it has in an empty
/// cell and waits; a second caller that finds the cell waiting swaps its own
/// data for the parked data and leaves the cell busy; the first caller comes
/// back, takes what was left for it and empties the cell.
pub struct ExchangeSlot<T> {
    state: usize,
    data: Option<ExchangeData<T>>,
    data_state: usize,
}

impl<T: Copy> ExchangeSlot<T> {
    /// The state of the cell: empty, waiting or busy.
    pub closed spec fn spec_state(&self) -> usize {
        self.state
    }

    /// The data that lies in the cell.
    pub closed spec fn parked(&self) -> Option<ExchangeData<T>> {
        self.data
    }

    /// The cell is in one of its three states, and holds data unless it is
    /// empty.
    pub closed spec fn wf(&self) -> bool {
        &&& self.state == EXCHANGE_EMPTY || self.state == EXCHANGE_WAITING || self.state
            == EXCHANGE_BUSY
        &&& self.data_state == self.state
        &&& (self.state == EXCHANGE_EMPTY) == (self.data is None)
    }

    /// An empty cell.
    pub fn new() -> (r: Self)
        ensures
            r.wf(),
            r.spec_state() == EXCHANGE_EMPTY,
            r.parked() is None,
    {
        Self { state: EXCHANGE_EMPTY, data: None, data_state: EXCHANGE_EMPTY }
    }

    /// The state of the cell.
    pub fn state(&self) -> (r: usize)
        ensures
            r == self.spec_state(),
    {
        self.state
    }

    /// Leaves `data` in an empty cell, which then waits for a partner.
    pub fn park(&mut self, data: ExchangeData<T>)
        requires
            old(self).wf(),
            old(self).spec_state() == EXCHANGE_EMPTY,
        ensures
            final(self).wf(),
            final(self).spec_state() == EXCHANGE_WAITING,
            final(self).parked() == Some(data),
    {
        self.state = EXCHANGE_WAITING;
        self.store_state_data(Some(data));
    }

    /// Ends the wait of the caller that parked: where a partner came by, its
    /// data is returned as `Ok`; where none did, the parked data comes back as
    /// `Err`.  The cell is empty afterwards.
    pub fn resume(&mut self) -> (r: Result<ExchangeData<T>, ExchangeData<T>>)
        requires
            old(self).wf(),
            old(self).spec_state() != EXCHANGE_EMPTY,
        ensures
            final(self).wf(),
            final(self).spec_state() == EXCHANGE_EMPTY,
            old(self).spec_state() == EXCHANGE_BUSY ==> r == Ok::<
                ExchangeData<T>,
                ExchangeData<T>,
            >(old(self).parked().unwrap()),
            old(self).spec_state() == EXCHANGE_WAITING ==> r == Err::<
                ExchangeData<T>,
                ExchangeData<T>,
            >(old(self).parked().unwrap()),
    {
        let met: bool = self.state == EXCHANGE_BUSY;
        self.state = EXCHANGE_EMPTY;
        let mut taken: Option<ExchangeData<T>> = None;
        self.swap_state_data(&mut taken);
        match taken {
            Some(res) => if met {
                Ok(res)
            } else {
                Err(res)
            },
            None => vstd::pervasive::unreached(),
        }
    }

    /// Offers `data` for exchange.  In a waiting cell the caller meets the
    /// parked partner: it gets the partner's data as `Ok` and leaves its own.
    /// In an empty cell it would park and wait; with no second caller about,
    /// the wait ends at once and `data` comes back as `Err`.  A busy cell
    /// turns the caller away with `Err(data)`.
    pub fn exchange(&mut self, data: ExchangeData<T>) -> (r: Result<
        ExchangeData<T>,
        ExchangeData<T>,
    >)
        requires
            old(self).wf(),
        ensures
            final(self).wf(),
            old(self).spec_state() == EXCHANGE_WAITING ==> {
                &&& r == Ok::<ExchangeData<T>, ExchangeData<T>>(old(self).parked().unwrap())
                &&& final(self).spec_state() == EXCHANGE_BUSY
                &&& final(self).parked() == Some(data)
            },
            old(self).spec_state() != EXCHANGE_WAITING ==> {
                &&& r == Err::<ExchangeData<T>, ExchangeData<T>>(data)
                &&& final(self).spec_state() == old(self).spec_state()
                &&& final(self).parked() == old(self).parked()
            },
    {
        let state: usize = self.state;
        if state == EXCHANGE_EMPTY {
            self.park(data);
            self.resume()
        } else if state == EXCHANGE_WAITING {
            self.state = EXCHANGE_BUSY;
            let mut data_result: Option<ExchangeData<T>> = Some(data);
            self.swap_state_data(&mut data_result);
            match data_result {
                Some(res) => Ok(res),
                None => vstd::pervasive::unreached(),
            }
        } else {
            Err(data)
        }
    }

    fn store_state_data(&mut self, data: Option<ExchangeData<T>>)
        ensures
            final(self).data == data,
            final(self).state == old(self).state,
            final(self).data_state == old(self).state,
    {
        self.data = data;
        self.data_state = self.state;
    }

    fn swap_state_data(&mut self, data: &mut Option<ExchangeData<T>>)
        ensures
            final(self).data == *old(data),
            *final(data) == old(self).data,
            final(self).state == old(self).state,
            final(self).data_state == old(self).state,
    {
        core::mem::swap(data, &mut self.data);
        self.data_state = self.state;
    }
}

/// The exchange channel: a few cells, one of which is picked by chance for
/// each exchange.
pub struct ExchangeArray<T> {
    rand: XorRand,
    capacity: usize,
    slots: Vec<ExchangeSlot<T>>,
}

/// The number of cells of the channel of a machine with `num_cpus`
/// processors: an eighth of them, at least 2 and at most
/// `MAXIMUM_EXCHANGE_SLOTS`.
pub open spec fn exchange_width(num_cpus: u16) -> usize {
    let eighth = num_cpus / 8;
    if eighth < 2 {
        2
    } else if eighth > MAXIMUM_EXCHANGE_SLOTS {
        MAXIMUM_EXCHANGE_SLOTS
    } else {
        eighth as usize
    }
}

impl<T: Copy> ExchangeArray<T> {
    /// The number of cells.
    pub closed spec fn spec_capacity(&self) -> usize {
        self.capacity
    }

    /// The cells.
    pub closed spec fn cells(&self) -> Seq<ExchangeSlot<T>> {
        self.slots@
    }

    /// The state of the generator that picks the cells.
    pub closed spec fn seed(&self) -> usize {
        self.rand@
    }

    /// The channel has its cells, and each is consistent.
    pub closed spec fn wf(&self) -> bool {
        &&& self.capacity > 0
        &&& self.capacity == self.slots@.len()
        &&& forall|i: int| 0 <= i < self.slots@.len() ==> (#[trigger] self.slots@[i]).wf()
    }

    /// The cell that the next exchange picks.
    pub open spec fn next_cell(&self) -> int {
        (crate::rand::xor_step(self.seed()) % self.spec_capacity()) as int
    }

    /// The channel for a machine with `num_cpus` processors.
    pub fn new(num_cpus: u16) -> (r: Self)
        ensures
            r.wf(),
            r.spec_capacity() == exchange_width(num_cpus),
            r.seed() == r.spec_capacity(),
            forall|i: int|
                0 <= i < r.spec_capacity() ==> (#[trigger] r.cells()[i]).spec_state()
                    == EXCHANGE_EMPTY,
    {
        let eighth: u16 = num_cpus / 8;
        let cap: usize = if eighth < 2 {
            2
        } else if eighth > 16 {
            MAXIMUM_EXCHANGE_SLOTS
        } else {
            eighth as usize
        };
        Self::with_capacity(cap)
    }

    /// A channel of `cap` empty cells.
    pub fn with_capacity(cap: usize) -> (r: Self)
        requires
            cap > 0,
        ensures
            r.wf(),
            r.spec_capacity() == cap,
            r.seed() == cap,
            forall|i: int|
                0 <= i < r.spec_capacity() ==> (#[trigger] r.cells()[i]).spec_state()
                    == EXCHANGE_EMPTY,
    {
        let mut slots: Vec<ExchangeSlot<T>> = Vec::new();
        let mut i: usize = 0;
        while i < cap
            invariant
                i <= cap,
                slots@.len() == i,
                forall|j: int|
                    0 <= j < i ==> (#[trigger] slots@[j]).wf() && slots@[j].spec_state()
                        == EXCHANGE_EMPTY,
            decreases cap - i,
        {
            slots.push(ExchangeSlot::new());
            i = i + 1;
        }
        Self { slots, rand: XorRand::new(cap), capacity: cap }
    }

    /// Offers `data` for exchange in the cell `next_cell`.
    pub fn exchange(&mut self, data: ExchangeData<T>) -> (r: Result<
        ExchangeData<T>,
        ExchangeData<T>,
    >)
        requires
            old(self).wf(),
        ensures
            final(self).wf(),
            final(self).spec_capacity() == old(self).spec_capacity(),
            final(self).seed() == crate::rand::xor_step(old(self).seed()),
            forall|i: int|
                0 <= i < old(self).spec_capacity() && i != old(self).next_cell() ==> final(self).cells()[i] == old(self).cells()[i],
            ({
                let before = old(self).cells()[old(self).next_cell()];
                let after = final(self).cells()[old(self).next_cell()];
                &&& before.spec_state() == EXCHANGE_WAITING ==> {
                    &&& r == Ok::<ExchangeData<T>, ExchangeData<T>>(before.parked().unwrap())
                    &&& after.spec_state() == EXCHANGE_BUSY
                    &&& after.parked() == Some(data)
                }
                &&& before.spec_state() != EXCHANGE_WAITING ==> {
                    &&& r == Err::<ExchangeData<T>, ExchangeData<T>>(data)
                    &&& after.spec_state() == before.spec_state()
                    &&& after.parked() == before.parked()
                }
            }),
    {
        let slot_num: usize = self.rand.rand_range(0, self.capacity - 1);
        self.slots[slot_num].exchange(data)
    }

    /// Whether a buffer with `rc` references is contended enough for the
    /// channel to pay off.
    pub fn worth_exchange(&self, rc: usize) -> (r: bool)
        requires
            self.wf(),
        ensures
            r == (rc >= MAXIMUM_EXCHANGE_SLOTS && rc >= self.spec_capacity()),
    {
        rc >= MAXIMUM_EXCHANGE_SLOTS && rc >= self.capacity
    }
}


/// Bytes of a buffer's descriptor.
pub const BUFFER_META_SIZE: usize = 56;

/// Bytes of a slot's flag.
pub const FLAG_SIZE: usize = 8;

/// Where the parts of a buffer lie in its memory: the descriptor, padded to
/// the cache line, and behind it the slots, each a flag followed by its
/// payload.
#[derive(Clone, Copy, Debug, PartialEq, Eq, Structural)]
pub struct BufferLayout {
    /// Bytes of the padded descriptor.
    pub meta_size: usize,
    /// Bytes of a flag and its payload.
    pub tuple_size: usize,
    /// Bytes that are set aside for each slot.
    pub tuple_size_aligned: usize,
    /// Bytes of the whole buffer.
    pub total_size: usize,
}

/// The bytes that are set aside for a slot of `tuple_size` bytes: 8, 16 or 32
/// where it fits, else the next multiple of the cache line.
pub open spec fn spec_tuple_size_aligned(tuple_size: nat) -> nat {
    if tuple_size <= 8 {
        8
    } else if tuple_size <= 16 {
        16
    } else if tuple_size <= 32 {
        32
    } else {
        tuple_size + padding_to(tuple_size, CACHE_LINE_SIZE as nat)
    }
}

/// The layout of a buffer of `buffer_cap` slots for payloads of `data_size`
/// bytes.
pub open spec fn spec_buffer_layout(data_size: usize, buffer_cap: usize) -> BufferLayout {
    let meta = BUFFER_META_SIZE + padding_to(BUFFER_META_SIZE as nat, CACHE_LINE_SIZE as nat);
    let tuple = FLAG_SIZE + data_size;
    BufferLayout {
        meta_size: meta as usize,
        tuple_size: tuple as usize,
        tuple_size_aligned: spec_tuple_size_aligned(tuple as nat) as usize,
        total_size: (meta + spec_tuple_size_aligned(tuple as nat) * buffer_cap) as usize,
    }
}

impl BufferLayout {
    /// The layout of a buffer of `buffer_cap` slots for payloads of
    /// `data_size` bytes, or nothing where the buffer would not fit the
    /// address space.
    pub fn new(data_size: usize, buffer_cap: usize) -> (r: Option<Self>)
        ensures
            r matches Some(layout) ==> {
                &&& layout == spec_buffer_layout(data_size, buffer_cap)
                &&& layout.meta_size == 64
                &&& layout.tuple_size == FLAG_SIZE + data_size
                &&& layout.tuple_size_aligned >= layout.tuple_size
                &&& layout.total_size == layout.meta_size + layout.tuple_size_aligned * buffer_cap
            },
            (r is None) == (FLAG_SIZE + data_size + CACHE_LINE_SIZE > usize::MAX || 64
                + spec_tuple_size_aligned((FLAG_SIZE + data_size) as nat) * buffer_cap > usize::MAX),
    {
        let meta_size: usize = BUFFER_META_SIZE + align_padding(BUFFER_META_SIZE, CACHE_LINE_SIZE);
        proof {
            crate::utils::lemma_padding_to(BUFFER_META_SIZE as nat, CACHE_LINE_SIZE as nat);
            assert(meta_size == 64);
        }
        if data_size > usize::MAX - FLAG_SIZE - CACHE_LINE_SIZE {
            return None;
        }
        let tuple_size: usize = FLAG_SIZE + data_size;
        proof {
            crate::utils::lemma_padding_to(tuple_size as nat, CACHE_LINE_SIZE as nat);
        }
        let tuple_size_aligned: usize = if tuple_size <= 8 {
            8
        } else if tuple_size <= 16 {
            16
        } else if tuple_size <= 32 {
            32
        } else {
            tuple_size + align_padding(tuple_size, CACHE_LINE_SIZE)
        };
        let slots: usize = match tuple_size_aligned.checked_mul(buffer_cap) {
            Some(slots) => slots,
            None => {
                return None;
            },
        };
        if slots > usize::MAX - meta_size {
            return None;
        }
        Some(BufferLayout { meta_size, tuple_size, tuple_size_aligned, total_size: meta_size + slots })
    }

    /// The address of the flag of slot `index` in a buffer whose slots start
    /// at `lower_bound`.
    pub fn flag_ptr_of(&self, lower_bound: usize, index: usize) -> (r: usize)
        requires
            lower_bound + index * self.tuple_size <= usize::MAX,
        ensures
            r == lower_bound + index * self.tuple_size,
    {
        proof {
            assert(index * self.tuple_size >= 0) by (nonlinear_arith);
        }
        lower_bound + index * self.tuple_size
    }

    /// The address of the payload of the slot whose flag lies at `flag_ptr`.
    pub fn object_ptr_of(&self, flag_ptr: usize) -> (r: usize)
        requires
            flag_ptr + FLAG_SIZE <= usize::MAX,
        ensures
            r == flag_ptr + FLAG_SIZE,
    {
        flag_ptr + FLAG_SIZE
    }

    /// Every slot of a buffer lies within the buffer: the slot `index` of a
    /// buffer of `buffer_cap` slots at `addr` starts behind the descriptor and
    /// ends before the end of the buffer.
    pub proof fn lemma_slot_in_buffer(&self, addr: usize, buffer_cap: usize, index: usize)
        requires
            self.tuple_size_aligned >= self.tuple_size,
            self.total_size == self.meta_size + self.tuple_size_aligned * buffer_cap,
            index < buffer_cap,
            addr + self.total_size <= usize::MAX,
        ensures
            addr + self.meta_size <= addr + self.meta_size + index * self.tuple_size,
            addr + self.meta_size + index * self.tuple_size + self.tuple_size <= addr
                + self.total_size,
    {
        let t = self.tuple_size as int;
        let a = self.tuple_size_aligned as int;
        let i = index as int;
        let c = buffer_cap as int;
        assert(i * t >= 0) by (nonlinear_arith)
            requires
                i >= 0,
                t >= 0,
        ;
        assert(i * t + t <= a * c) by (nonlinear_arith)
            requires
                0 <= i < c,
                0 <= t <= a,
        ;
    }
}

} // verus!
