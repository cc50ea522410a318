//! The queue of scheduled deliveries.
//!
//! The queue always yields the entry that is due first. Of two entries, the
//! one with the earlier delivery time is due first; at equal delivery times,
//! the one for the validator with the greater identifier; and of two entries
//! that agree in both, the one that was pushed first.

use crate::message::Message;
use crate::types::{Timestamp, ValidatorId};
use std::fmt::Debug;
use vstd::prelude::*;
use vstd::multiset::Multiset;
use vstd::seq_lib::*;

verus! {

/// A message scheduled for delivery to one validator at one instant.
#[derive(Debug, PartialEq, Eq)]
pub struct QueueEntry<M: Clone + Debug> {
    pub delivery_time: Timestamp,
    pub recipient: ValidatorId,
    pub message: Message<M>,
}

impl<M: Clone + Debug> QueueEntry<M> {
    /// Whether `self` is due strictly before `other`: at an earlier instant,
    /// or at the same instant for a validator with a greater identifier.
    pub open spec fn due_before(self, other: Self) -> bool {
        ||| self.delivery_time.0 < other.delivery_time.0
        ||| (self.delivery_time.0 == other.delivery_time.0 && self.recipient.0
            > other.recipient.0)
    }

    pub fn new(delivery_time: Timestamp, recipient: ValidatorId, message: Message<M>) -> (e: Self)
        ensures
            e.delivery_time == delivery_time,
            e.recipient == recipient,
            e.message == message,
    {
        QueueEntry { delivery_time, recipient, message }
    }
}

/// Whether no entry of `s` is due before an entry that stands in front of it.
pub open spec fn in_delivery_order<M: Clone + Debug>(s: Seq<QueueEntry<M>>) -> bool {
    forall|i: int, j: int| 0 <= i < j < s.len() ==> !s[j].due_before(s[i])
}

/// Where a new entry `e` goes into `s`: behind the last entry that `e` is not
/// due before.
pub open spec fn insertion_point<M: Clone + Debug>(s: Seq<QueueEntry<M>>, e: QueueEntry<M>) -> int
    decreases s.len(),
{
    if s.len() == 0 {
        0
    } else if e.due_before(s.last()) {
        insertion_point(s.drop_last(), e)
    } else {
        s.len() as int
    }
}

/// The pending entries `s` after `e` was pushed.
pub open spec fn pushed<M: Clone + Debug>(s: Seq<QueueEntry<M>>, e: QueueEntry<M>) -> Seq<
    QueueEntry<M>,
> {
    s.insert(insertion_point(s, e), e)
}

/// The entry that a pop returns from the pending entries `s`.
pub open spec fn first_due<M: Clone + Debug>(s: Seq<QueueEntry<M>>) -> Option<QueueEntry<M>> {
    if s.len() == 0 {
        None
    } else {
        Some(s[0])
    }
}

/// The pending entries `s` after a pop.
pub open spec fn after_pop<M: Clone + Debug>(s: Seq<QueueEntry<M>>) -> Seq<QueueEntry<M>> {
    if s.len() == 0 {
        s
    } else {
        s.drop_first()
    }
}

/// The pending entries `s` after the entries of `batch` were pushed one
/// after another.
pub open spec fn pushed_all<M: Clone + Debug>(
    s: Seq<QueueEntry<M>>,
    batch: Seq<QueueEntry<M>>,
) -> Seq<QueueEntry<M>>
    decreases batch.len(),
{
    if batch.len() == 0 {
        s
    } else {
        pushed(pushed_all(s, batch.drop_last()), batch.last())
    }
}

/// An entry with the number of the push that brought it.
struct Slot<M: Clone + Debug> {
    entry: QueueEntry<M>,
    serial: u64,
}

impl<M: Clone + Debug> Slot<M> {
    /// The strict order in which slots leave the queue.
    spec fn before(self, other: Self) -> bool {
        ||| self.entry.due_before(other.entry)
        ||| (!other.entry.due_before(self.entry) && self.serial < other.serial)
    }

    fn is_before(&self, other: &Self) -> (b: bool)
        ensures
            b == self.before(*other),
    {
        let t1: u64 = self.entry.delivery_time.0;
        let t2: u64 = other.entry.delivery_time.0;
        let r1: u64 = self.entry.recipient.0;
        let r2: u64 = other.entry.recipient.0;
        t1 < t2 || (t1 == t2 && (r1 > r2 || (r1 == r2 && self.serial < other.serial)))
    }
}

spec fn parent(k: int) -> int {
    (k - 1) / 2
}

/// The slot at `k` does not leave before the slot above it.
spec fn ordered_at<M: Clone + Debug>(s: Seq<Slot<M>>, k: int) -> bool {
    !s[k].before(s[parent(k)])
}

spec fn heap_ordered<M: Clone + Debug>(s: Seq<Slot<M>>) -> bool {
    forall|k: int| 0 < k < s.len() ==> #[trigger] ordered_at(s, k)
}

proof fn lemma_exchange_keeps_multiset<A>(s: Seq<A>, i: int, j: int)
    requires
        0 <= i < j < s.len(),
    ensures
        s.update(i, s[j]).update(j, s[i]).to_multiset() == s.to_multiset(),
{
    broadcast use group_to_multiset_ensures;

    let a = s[i];
    let b = s[j];
    let s1 = s.update(i, b);
    let s2 = s1.update(j, a);
    assert(s1 =~= s.remove(i).insert(i, b));
    assert(s2 =~= s1.remove(j).insert(j, a));
    to_multiset_remove(s, i);
    to_multiset_insert(s.remove(i), i, b);
    to_multiset_remove(s1, j);
    to_multiset_insert(s1.remove(j), j, a);
    assert(s.contains(a));
    assert(s.contains(b));
    assert(s2.to_multiset() =~= s.to_multiset());
}

/// Exchanges the elements at `i` and `j`.
fn exchange<T>(v: &mut Vec<T>, i: usize, j: usize)
    requires
        i < j < old(v).len(),
    ensures
        final(v)@ == old(v)@.update(i as int, old(v)@[j as int]).update(j as int, old(v)@[i as int]),
        final(v)@.to_multiset() == old(v)@.to_multiset(),
{
    let (left, right) = v.as_mut_slice().split_at_mut(j);
    core::mem::swap(&mut left[i], &mut right[0]);
    proof {
        assert(v@ =~= old(v)@.update(i as int, old(v)@[j as int]).update(
            j as int,
            old(v)@[i as int],
        ));
        lemma_exchange_keeps_multiset(old(v)@, i as int, j as int);
    }
}

/// Restores the heap order after a slot was put at the end.
fn sift_up<M: Clone + Debug>(heap: &mut Vec<Slot<M>>)
    requires
        old(heap)@.len() > 0,
        heap_ordered(old(heap)@.drop_last()),
    ensures
        heap_ordered(final(heap)@),
        final(heap)@.to_multiset() == old(heap)@.to_multiset(),
        final(heap)@.len() == old(heap)@.len(),
{
    let mut i: usize = heap.len() - 1;
    proof {
        assert forall|k: int| 0 < k < heap@.len() && k != i implies #[trigger] ordered_at(
            heap@,
            k,
        ) by {
            assert(ordered_at(old(heap)@.drop_last(), k));
        }
    }
    while i > 0
        invariant
            i < heap@.len(),
            heap@.len() == old(heap)@.len(),
            heap@.to_multiset() == old(heap)@.to_multiset(),
            forall|k: int| 0 < k < heap@.len() && k != i ==> #[trigger] ordered_at(heap@, k),
            forall|k: int|
                0 < k < heap@.len() && parent(k) == i && i > 0 ==> !(#[trigger] heap@[k]).before(
                    heap@[parent(i as int)],
                ),
        ensures
            heap_ordered(heap@),
            heap@.len() == old(heap)@.len(),
            heap@.to_multiset() == old(heap)@.to_multiset(),
        decreases i,
    {
        let p: usize = (i - 1) / 2;
        if !heap[i].is_before(&heap[p]) {
            assert(ordered_at(heap@, i as int));
            break ;
        }
        let ghost before = heap@;
        exchange(heap, p, i);
        proof {
            let after = heap@;
            assert forall|k: int| 0 < k < after.len() && k != p implies #[trigger] ordered_at(
                after,
                k,
            ) by {
                if k == i {
                } else if parent(k) == i {
                    assert(!before[k].before(before[parent(i as int)]));
                } else if parent(k) == p {
                    assert(ordered_at(before, k));
                } else {
                    assert(ordered_at(before, k));
                }
            }
            assert forall|k: int| 0 < k < after.len() && parent(k) == p && p > 0 implies !(
            #[trigger] after[k]).before(after[parent(p as int)]) by {
                assert(ordered_at(before, p as int));
                if k != i {
                    assert(ordered_at(before, k));
                }
            }
        }
        i = p;
    }
}

/// Restores the heap order after the slot at the root was replaced.
fn sift_down<M: Clone + Debug>(heap: &mut Vec<Slot<M>>)
    requires
        forall|k: int| 0 < k < old(heap)@.len() && parent(k) != 0 ==> #[trigger] ordered_at(
            old(heap)@,
            k,
        ),
    ensures
        heap_ordered(final(heap)@),
        final(heap)@.to_multiset() == old(heap)@.to_multiset(),
        final(heap)@.len() == old(heap)@.len(),
{
    let n: usize = heap.len();
    let mut i: usize = 0;
    while i < n / 2
        invariant
            n == heap@.len(),
            heap@.len() == old(heap)@.len(),
            heap@.to_multiset() == old(heap)@.to_multiset(),
            forall|k: int| 0 < k < heap@.len() && parent(k) != i ==> #[trigger] ordered_at(heap@, k),
            forall|k: int|
                0 < k < heap@.len() && parent(k) == i && i > 0 ==> !(#[trigger] heap@[k]).before(
                    heap@[parent(i as int)],
                ),
        ensures
            heap_ordered(heap@),
            heap@.len() == old(heap)@.len(),
            heap@.to_multiset() == old(heap)@.to_multiset(),
        decreases n - i,
    {
        let left: usize = 2 * i + 1;
        let right: usize = left + 1;
        let c: usize = if right < n && heap[right].is_before(&heap[left]) {
            right
        } else {
            left
        };
        if !heap[c].is_before(&heap[i]) {
            proof {
                assert forall|k: int| 0 < k < heap@.len() implies #[trigger] ordered_at(
                    heap@,
                    k,
                ) by {
                    if parent(k) == i {
                        assert(k == left || k == right);
                    }
                }
            }
            break ;
        }
        let ghost before = heap@;
        exchange(heap, i, c);
        proof {
            let after = heap@;
            assert forall|k: int| 0 < k < after.len() && parent(k) != c implies #[trigger] ordered_at(
                after,
                k,
            ) by {
                if k == c {
                } else if parent(k) == i {
                    assert(k == left || k == right);
                } else if k == i {
                    assert(!before[c as int].before(before[parent(i as int)]));
                } else {
                    assert(ordered_at(before, k));
                }
            }
            assert forall|k: int| 0 < k < after.len() && parent(k) == c && c > 0 implies !(
            #[trigger] after[k]).before(after[parent(c as int)]) by {
                assert(ordered_at(before, k));
            }
        }
        i = c;
    }
}

spec fn strictly_ordered<M: Clone + Debug>(order: Seq<Slot<M>>) -> bool {
    forall|i: int, j: int| 0 <= i < j < order.len() ==> order[i].before(order[j])
}

spec fn entries<M: Clone + Debug>(order: Seq<Slot<M>>) -> Seq<QueueEntry<M>> {
    order.map_values(|s: Slot<M>| s.entry)
}

proof fn lemma_root_leaves_first<M: Clone + Debug>(heap: Seq<Slot<M>>, k: int)
    requires
        heap_ordered(heap),
        0 <= k < heap.len(),
    ensures
        !heap[k].before(heap[0]),
    decreases k,
{
    if k > 0 {
        assert(ordered_at(heap, k));
        lemma_root_leaves_first(heap, parent(k));
    }
}

proof fn lemma_root_is_first<M: Clone + Debug>(heap: Seq<Slot<M>>, order: Seq<Slot<M>>)
    requires
        heap.len() > 0,
        heap_ordered(heap),
        heap.to_multiset() == order.to_multiset(),
        strictly_ordered(order),
    ensures
        order.len() == heap.len(),
        heap[0] == order[0],
{
    broadcast use group_to_multiset_ensures;

    to_multiset_len(order);
    to_multiset_len(heap);
    assert(order.contains(order[0]));
    to_multiset_contains(order, order[0]);
    to_multiset_contains(heap, order[0]);
    let j = choose|j: int| 0 <= j < heap.len() && heap[j] == order[0];
    lemma_root_leaves_first(heap, j);
    assert(heap.contains(heap[0]));
    to_multiset_contains(heap, heap[0]);
    to_multiset_contains(order, heap[0]);
    let m = choose|m: int| 0 <= m < order.len() && order[m] == heap[0];
    if m > 0 {
        assert(order[0].before(order[m]));
    }
}

proof fn lemma_swap_remove_multiset<A>(s: Seq<A>)
    requires
        s.len() > 0,
    ensures
        s.update(0, s.last()).drop_last().to_multiset() == s.to_multiset().remove(s[0]),
{
    broadcast use group_to_multiset_ensures;

    let t = s.update(0, s.last()).drop_last();
    let r = s.remove(0);
    to_multiset_remove(s, 0);
    if s.len() == 1 {
        assert(t =~= r);
    } else {
        let body = r.drop_last();
        assert(t =~= body.insert(0, s.last()));
        assert(r =~= body.push(s.last()));
        to_multiset_insert(body, 0, s.last());
        to_multiset_build(body, s.last());
    }
}

/// What is known of where a new entry goes into entries in delivery order:
/// it is due before every entry behind that place, and before none in front.
pub proof fn lemma_insertion_point<M: Clone + Debug>(s: Seq<QueueEntry<M>>, e: QueueEntry<M>)
    requires
        in_delivery_order(s),
    ensures
        0 <= insertion_point(s, e) <= s.len(),
        forall|i: int| 0 <= i < insertion_point(s, e) ==> !e.due_before(#[trigger] s[i]),
        forall|i: int| insertion_point(s, e) <= i < s.len() ==> e.due_before(#[trigger] s[i]),
    decreases s.len(),
{
    if s.len() > 0 {
        let front = s.drop_last();
        if e.due_before(s.last()) {
            assert forall|i: int, j: int| 0 <= i < j < front.len() implies !front[j].due_before(
                front[i],
            ) by {
                assert(!s[j].due_before(s[i]));
            }
            lemma_insertion_point(front, e);
            assert forall|i: int| 0 <= i < insertion_point(s, e) implies !e.due_before(
                #[trigger] s[i],
            ) by {
                assert(front[i] == s[i]);
            }
            assert forall|i: int| insertion_point(s, e) <= i < s.len() implies e.due_before(
                #[trigger] s[i],
            ) by {
                if i < front.len() {
                    assert(front[i] == s[i]);
                }
            }
        } else {
            assert forall|i: int| 0 <= i < s.len() implies !e.due_before(#[trigger] s[i]) by {
                if i < s.len() - 1 {
                    assert(!s.last().due_before(s[i]));
                }
            }
        }
    }
}

/// A push keeps the delivery order, adds the new entry once and loses none.
pub proof fn lemma_pushed_in_delivery_order<M: Clone + Debug>(
    s: Seq<QueueEntry<M>>,
    e: QueueEntry<M>,
)
    requires
        in_delivery_order(s),
    ensures
        in_delivery_order(pushed(s, e)),
        pushed(s, e).len() == s.len() + 1,
        pushed(s, e).to_multiset() == s.to_multiset().insert(e),
{
    lemma_insertion_point(s, e);
    let pos = insertion_point(s, e);
    let after = pushed(s, e);
    to_multiset_insert(s, pos, e);
    assert forall|i: int, j: int| 0 <= i < j < after.len() implies !after[j].due_before(
        after[i],
    ) by {
        if i == pos {
            assert(e.due_before(s[j - 1]));
        } else if j == pos {
            assert(!e.due_before(s[i]));
        } else {
            let a = if i < pos { i } else { i - 1 };
            let b = if j < pos { j } else { j - 1 };
            assert(!s[b].due_before(s[a]));
        }
    }
}

/// Whatever the order in which entries are pushed, they leave in delivery
/// order, and so with delivery times that never decrease; each pushed entry
/// is among them once, and nothing else is.
pub proof fn lemma_pushes_leave_in_delivery_order<M: Clone + Debug>(
    s: Seq<QueueEntry<M>>,
    batch: Seq<QueueEntry<M>>,
)
    requires
        in_delivery_order(s),
    ensures
        in_delivery_order(pushed_all(s, batch)),
        forall|i: int, j: int|
            0 <= i < j < pushed_all(s, batch).len() ==> pushed_all(s, batch)[i].delivery_time.0
                <= pushed_all(s, batch)[j].delivery_time.0,
        pushed_all(s, batch).len() == s.len() + batch.len(),
        pushed_all(s, batch).to_multiset() == s.to_multiset().add(batch.to_multiset()),
    decreases batch.len(),
{
    let all = pushed_all(s, batch);
    if batch.len() == 0 {
        assert(batch.to_multiset() =~= Multiset::<QueueEntry<M>>::empty()) by {
            to_multiset_len(batch);
        }
        assert(s.to_multiset().add(batch.to_multiset()) =~= s.to_multiset());
    } else {
        let front = batch.drop_last();
        lemma_pushes_leave_in_delivery_order(s, front);
        lemma_pushed_in_delivery_order(pushed_all(s, front), batch.last());
        assert(batch =~= front.push(batch.last()));
        to_multiset_build(front, batch.last());
        assert(all.to_multiset() =~= s.to_multiset().add(batch.to_multiset()));
    }
    assert forall|i: int, j: int| 0 <= i < j < all.len() implies all[i].delivery_time.0
        <= all[j].delivery_time.0 by {
        assert(!all[j].due_before(all[i]));
    }
}

/// An entry pushed onto pending entries leaves first exactly if there was
/// none, or if it is due before the one that was first; what is left behind
/// it is then what was pending before. In particular, an entry pushed onto
/// an empty queue is the one that the next pop returns, unchanged.
pub proof fn lemma_pushed_first<M: Clone + Debug>(s: Seq<QueueEntry<M>>, e: QueueEntry<M>)
    requires
        in_delivery_order(s),
    ensures
        pushed(Seq::<QueueEntry<M>>::empty(), e) == seq![e],
        s.len() == 0 || e.due_before(s[0]) ==> pushed(s, e)[0] == e && pushed(s, e).drop_first()
            == s,
        s.len() > 0 && !e.due_before(s[0]) ==> pushed(s, e)[0] == s[0],
{
    lemma_insertion_point(s, e);
    assert(pushed(Seq::<QueueEntry<M>>::empty(), e) =~= seq![e]);
    if s.len() == 0 || e.due_before(s[0]) {
        assert(insertion_point(s, e) == 0);
        assert(pushed(s, e).drop_first() =~= s);
    }
}

/// A queue of scheduled deliveries that yields the entry due first.
///
/// Its view is the sequence of the pending entries in the order in which
/// they will leave.
pub struct Queue<M: Clone + Debug> {
    /// A binary heap: no slot leaves before the slot above it.
    heap: Vec<Slot<M>>,
    /// Greater than the serial of every slot.
    next_serial: u64,
    /// The slots in the order in which they leave.
    order: Ghost<Seq<Slot<M>>>,
}

impl<M: Clone + Debug> View for Queue<M> {
    type V = Seq<QueueEntry<M>>;

    closed spec fn view(&self) -> Seq<QueueEntry<M>> {
        entries(self.order@)
    }
}

impl<M: Clone + Debug> Queue<M> {
    /// The invariant of the queue.
    pub closed spec fn wf(&self) -> bool {
        &&& heap_ordered(self.heap@)
        &&& self.heap@.to_multiset() == self.order@.to_multiset()
        &&& strictly_ordered(self.order@)
        &&& forall|i: int|
            0 <= i < self.order@.len() ==> (#[trigger] self.order@[i]).serial < self.next_serial
    }

    /// The pending entries of a well-formed queue stand in delivery order.
    pub proof fn lemma_in_delivery_order(&self)
        requires
            self.wf(),
        ensures
            in_delivery_order(self@),
    {
        let order = self.order@;
        assert forall|i: int, j: int| 0 <= i < j < self@.len() implies !self@[j].due_before(
            self@[i],
        ) by {
            assert(order[i].before(order[j]));
        }
    }

    /// An empty queue.
    pub fn new() -> (q: Self)
        ensures
            q.wf(),
            q@ == Seq::<QueueEntry<M>>::empty(),
    {
        let q = Queue { heap: Vec::new(), next_serial: 0, order: Ghost(Seq::empty()) };
        assert(q@ =~= Seq::<QueueEntry<M>>::empty());
        q
    }

    /// Puts `entry` into the heap under the next serial.
    fn place(&mut self, entry: QueueEntry<M>)
        requires
            old(self).wf(),
            old(self).next_serial < u64::MAX || old(self).next_serial == old(self).heap@.len(),
        ensures
            final(self).wf(),
            final(self)@ == pushed(old(self)@, entry),
            final(self).next_serial == old(self).next_serial + 1,
            final(self).heap@.len() == old(self).heap@.len() + 1,
    {
        let ghost view = self@;
        let ghost order = self.order@;
        let ghost pos = insertion_point(view, entry);
        let slot = Slot { entry, serial: self.next_serial };
        let ghost placed = slot;
        proof {
            self.lemma_in_delivery_order();
            lemma_insertion_point(view, entry);
            assert(self.heap@.push(placed).drop_last() =~= self.heap@);
        }
        self.heap.push(slot);
        let filled: usize = self.heap.len();
        assert(old(self).heap@.len() + 1 == filled);
        sift_up(&mut self.heap);
        self.next_serial = self.next_serial + 1;
        self.order = Ghost(order.insert(pos, placed));
        proof {
            broadcast use group_to_multiset_ensures;

            let after = self.order@;
            to_multiset_insert(order, pos, placed);
            assert forall|i: int, j: int| 0 <= i < j < after.len() implies after[i].before(
                after[j],
            ) by {
                if i == pos {
                    assert(entry.due_before(view[j - 1]));
                } else if j == pos {
                    assert(!entry.due_before(view[i]));
                } else {
                    let a = if i < pos { i } else { i - 1 };
                    let b = if j < pos { j } else { j - 1 };
                    assert(order[a].before(order[b]));
                }
            }
            assert(self@ =~= pushed(view, entry));
        }
    }

    /// Gives the pending entries the serials from zero on, in the order in
    /// which they leave, so that serials never run out.
    fn renumber(&mut self)
        requires
            old(self).wf(),
        ensures
            final(self).wf(),
            final(self)@ == old(self)@,
            final(self).next_serial == final(self).heap@.len(),
    {
        let mut drained: Vec<QueueEntry<M>> = Vec::new();
        loop
            invariant
                self.wf(),
                drained@ + self@ == old(self)@,
            ensures
                self.wf(),
                self@.len() == 0,
                drained@ == old(self)@,
            decreases self@.len(),
        {
            let ghost pending = self@;
            let ghost taken = drained@;
            match self.pop() {
                Some(e) => {
                    drained.push(e);
                    assert(drained@ + self@ =~= taken + pending);
                },
                None => {
                    assert(drained@ + self@ =~= drained@);
                    break ;
                },
            }
        }
        self.heap.clear();
        self.next_serial = 0;
        self.order = Ghost(Seq::empty());
        let ghost all = drained@;
        proof {
            old(self).lemma_in_delivery_order();
            assert(self@ =~= all.take(0));
        }
        for e in it: drained
            invariant
                self.wf(),
                self.next_serial == self.heap@.len(),
                it.seq() == all,
                self@ == all.take(it.index()),
                in_delivery_order(all),
        {
            let ghost k = it.index();
            proof {
                if k > 0 {
                    assert(self@.last() == all[k - 1]);
                    assert(!all[k].due_before(all[k - 1]));
                }
                assert(all.take(k).insert(k, all[k]) =~= all.take(k + 1));
            }
            self.place(e);
        }
        assert(all.take(all.len() as int) =~= all);
    }

    /// Adds `entry` to the pending entries: behind the last one that it is
    /// not due before.
    pub fn push(&mut self, entry: QueueEntry<M>)
        requires
            old(self).wf(),
        ensures
            final(self).wf(),
            final(self)@ == pushed(old(self)@, entry),
    {
        if self.next_serial == u64::MAX {
            self.renumber();
        }
        self.place(entry);
    }

    /// Removes and returns the entry that is due first, if there is one.
    pub fn pop(&mut self) -> (first: Option<QueueEntry<M>>)
        requires
            old(self).wf(),
        ensures
            final(self).wf(),
            first == first_due(old(self)@),
            final(self)@ == after_pop(old(self)@),
    {
        if self.heap.len() == 0 {
            proof {
                to_multiset_len(self.order@);
                to_multiset_len(self.heap@);
            }
            return None;
        }
        let ghost heap = self.heap@;
        let ghost order = self.order@;
        proof {
            lemma_root_is_first(heap, order);
            lemma_swap_remove_multiset(heap);
            to_multiset_remove(order, 0);
            assert(order.drop_first() =~= order.remove(0));
        }
        let slot = self.heap.swap_remove(0);
        proof {
            let after = self.heap@;
            assert forall|k: int| 0 < k < after.len() && parent(k) != 0 implies #[trigger] ordered_at(
                after,
                k,
            ) by {
                assert(ordered_at(heap, k));
            }
        }
        sift_down(&mut self.heap);
        self.order = Ghost(order.drop_first());
        proof {
            assert(self@ =~= old(self)@.drop_first());
        }
        Some(slot.entry)
    }

    /// Discards every pending entry.
    pub fn clear(&mut self)
        ensures
            final(self).wf(),
            final(self)@ == Seq::<QueueEntry<M>>::empty(),
    {
        self.heap.clear();
        self.next_serial = 0;
        self.order = Ghost(Seq::empty());
        assert(self@ =~= Seq::<QueueEntry<M>>::empty());
    }
}

impl<M: Clone + Debug> Default for Queue<M> {
    fn default() -> (q: Self)
        ensures
            q.wf(),
            q@ == Seq::<QueueEntry<M>>::empty(),
    {
        Queue::new()
    }
}

} // verus!
