//! The order arena: a flat store of slots, addressed by stable integer
//! handles, with a doubly linked recency list threaded through the live slots
//! and a singly linked list of the slots that wait to be used again.

use vstd::prelude::*;
use vstd::std_specs::vec::into_iter_elts;

verus! {

/// The value of a link that leads nowhere.
const NIL: usize = usize::MAX;

/// One cell of the arena: an item, if the slot is live, and its two links.
#[derive(Clone)]
struct Slot<T> {
    item: Option<T>,
    prev: usize,
    next: usize,
}

/// A list of items in recency order, most recently used first.
///
/// Every live item sits in a slot whose index is its handle. A handle stays
/// valid, and keeps naming the same slot, until that item is removed.
#[derive(Clone)]
pub struct LRUList<T> {
    slots: Vec<Slot<T>>,
    head: usize,
    tail: usize,
    free: usize,
    count: usize,
    live: Ghost<Seq<usize>>,
    idle: Ghost<Seq<usize>>,
}

/// The handle at position `p` of `chain`, or `NIL` outside of it.
spec fn link_to(chain: Seq<usize>, p: int) -> usize {
    if 0 <= p < chain.len() {
        chain[p]
    } else {
        NIL
    }
}

impl<T> View for LRUList<T> {
    type V = Seq<T>;

    /// The live items, most recently used first.
    open spec fn view(&self) -> Seq<T> {
        Seq::new(self.handles().len(), |p: int| self.item(self.handles()[p]))
    }
}

impl<T> LRUList<T> {
    /// The handles of the live slots, most recently used first.
    pub closed spec fn handles(&self) -> Seq<usize> {
        self.live@
    }

    /// The item that the slot `h` holds.
    pub closed spec fn item(&self, h: usize) -> T {
        self.slots@[h as int].item->0
    }

    /// The handles of the empty slots, in the order in which insertions will
    /// use them.
    pub closed spec fn spare(&self) -> Seq<usize> {
        self.idle@
    }

    /// The number of slots, live and empty.
    pub closed spec fn slot_count(&self) -> nat {
        self.slots@.len()
    }

    /// Whether `h` names a live slot.
    pub open spec fn has(&self, h: usize) -> bool {
        self.handles().contains(h)
    }

    /// The position of the live handle `h` in the recency order.
    pub open spec fn position(&self, h: usize) -> int {
        self.handles().index_of(h)
    }

    /// The live slot at position `p` is in bounds, holds an item, and its
    /// links name its two neighbours in the recency order.
    spec fn linked_at(&self, p: int) -> bool {
        let h = self.live@[p];
        &&& h < self.slots@.len()
        &&& self.slots@[h as int].item is Some
        &&& self.slots@[h as int].prev == link_to(self.live@, p - 1)
        &&& self.slots@[h as int].next == link_to(self.live@, p + 1)
    }

    /// The idle slot at position `q` is in bounds, holds nothing, and its
    /// forward link names the next idle slot.
    spec fn idle_at(&self, q: int) -> bool {
        let h = self.idle@[q];
        &&& h < self.slots@.len()
        &&& self.slots@[h as int].item is None
        &&& self.slots@[h as int].next == link_to(self.idle@, q + 1)
    }

    spec fn live_ok(&self) -> bool {
        &&& self.slots@.len() <= usize::MAX
        &&& self.live@.no_duplicates()
        &&& self.count == self.live@.len()
        &&& self.head == link_to(self.live@, 0)
        &&& self.tail == link_to(self.live@, self.live@.len() - 1)
        &&& forall|p: int| 0 <= p < self.live@.len() ==> #[trigger] self.linked_at(p)
    }

    spec fn idle_ok(&self) -> bool {
        &&& self.idle@.no_duplicates()
        &&& self.free == link_to(self.idle@, 0)
        &&& forall|q: int| 0 <= q < self.idle@.len() ==> #[trigger] self.idle_at(q)
    }

    /// The arena's invariant: the recency list walks exactly the live slots,
    /// each once, the idle list walks exactly the empty ones, and every slot
    /// is on one of the two.
    pub closed spec fn wf(&self) -> bool {
        &&& self.live_ok()
        &&& self.idle_ok()
        &&& self.live@.len() + self.idle@.len() == self.slots@.len()
    }

    /// In a well-formed arena no handle occurs twice, and the number of
    /// handles fits a machine word.
    pub proof fn lemma_handles_distinct(&self)
        requires
            self.wf(),
        ensures
            self.handles().no_duplicates(),
            self.handles().len() == self@.len(),
            self.handles().len() + self.spare().len() == self.slot_count(),
    {
    }

    /// Makes an empty arena that has allocated nothing.
    pub fn new() -> (list: Self)
        ensures
            list.wf(),
            list.handles() == Seq::<usize>::empty(),
            list.spare() == Seq::<usize>::empty(),
            list.slot_count() == 0,
    {
        LRUList {
            slots: Vec::new(),
            head: NIL,
            tail: NIL,
            free: NIL,
            count: 0,
            live: Ghost(Seq::empty()),
            idle: Ghost(Seq::empty()),
        }
    }

    /// Makes an empty arena with room for `capacity` slots.
    pub fn with_capacity(capacity: usize) -> (list: Self)
        ensures
            list.wf(),
            list.handles() == Seq::<usize>::empty(),
            list.spare() == Seq::<usize>::empty(),
            list.slot_count() == 0,
    {
        LRUList {
            slots: Vec::with_capacity(capacity),
            head: NIL,
            tail: NIL,
            free: NIL,
            count: 0,
            live: Ghost(Seq::empty()),
            idle: Ghost(Seq::empty()),
        }
    }

    /// The number of live items.
    pub fn len(&self) -> (n: usize)
        requires
            self.wf(),
        ensures
            n == self.handles().len(),
    {
        self.count
    }

    /// The handle of the least recently used item.
    pub fn back(&self) -> (h: usize)
        requires
            self.wf(),
            self.handles().len() > 0,
        ensures
            h == self.handles().last(),
            self.has(h),
            self.position(h) == self.handles().len() - 1,
    {
        self.tail
    }

    /// The item in the live slot `h`.
    pub fn get(&self, h: usize) -> (item: &T)
        requires
            self.wf(),
            self.has(h),
        ensures
            *item == self.item(h),
    {
        proof {
            let p = self.live@.index_of(h);
            assert(self.linked_at(p));
        }
        self.slots[h].item.as_ref().unwrap()
    }

    /// Takes the live slot `h` out of the recency list and leaves it, still
    /// holding its item, on neither list.
    fn detach(&mut self, h: usize)
        requires
            old(self).live_ok(),
            old(self).idle_ok(),
            old(self).live@.contains(h),
        ensures
            final(self).live_ok(),
            final(self).idle_ok(),
            final(self).live@ == old(self).live@.remove(old(self).live@.index_of(h)),
            final(self).idle@ == old(self).idle@,
            !final(self).live@.contains(h),
            final(self).slots@.len() == old(self).slots@.len(),
            h < final(self).slots@.len(),
            forall|i: int|
                0 <= i < old(self).slots@.len() ==> (#[trigger] final(self).slots@[i]).item
                    == old(self).slots@[i].item,
    {
        let ghost before = *self;
        let ghost live = self.live@;
        let ghost p = live.index_of(h);
        proof {
            assert(before.linked_at(p));
            if p > 0 {
                assert(before.linked_at(p - 1));
            }
            if p + 1 < live.len() {
                assert(before.linked_at(p + 1));
            }
        }
        let prev = self.slots[h].prev;
        let next = self.slots[h].next;
        if prev != NIL {
            self.slots[prev].next = next;
        } else {
            self.head = next;
        }
        if next != NIL {
            self.slots[next].prev = prev;
        } else {
            self.tail = prev;
        }
        self.count = self.count - 1;
        self.live = Ghost(live.remove(p));
        proof {
            let after = live.remove(p);
            assert(after.no_duplicates() && !after.contains(h)) by {
                assert forall|i: int, j: int|
                    0 <= i < after.len() && 0 <= j < after.len() && i != j implies after[i]
                    != after[j] by {}
                assert forall|i: int| 0 <= i < after.len() implies after[i] != h by {}
            }
            assert forall|q: int| 0 <= q < after.len() implies #[trigger] self.linked_at(q) by {
                let o = if q < p { q } else { q + 1 };
                assert(before.linked_at(o));
            }
            assert forall|q: int| 0 <= q < self.idle@.len() implies #[trigger] self.idle_at(q) by {
                assert(before.idle_at(q));
            }
        }
    }

    /// Puts the slot `h`, which holds an item and is on neither list, at the
    /// front of the recency list.
    fn attach_front(&mut self, h: usize)
        requires
            old(self).live_ok(),
            old(self).idle_ok(),
            h < old(self).slots@.len(),
            old(self).slots@[h as int].item is Some,
            !old(self).live@.contains(h),
            old(self).live@.len() < old(self).slots@.len(),
        ensures
            final(self).live_ok(),
            final(self).idle_ok(),
            final(self).live@ == seq![h] + old(self).live@,
            final(self).idle@ == old(self).idle@,
            final(self).slots@.len() == old(self).slots@.len(),
            forall|i: int|
                0 <= i < old(self).slots@.len() ==> (#[trigger] final(self).slots@[i]).item
                    == old(self).slots@[i].item,
    {
        let ghost before = *self;
        let ghost live = self.live@;
        proof {
            if live.len() > 0 {
                assert(before.linked_at(0));
            }
        }
        let first = self.head;
        self.slots[h].prev = NIL;
        self.slots[h].next = first;
        if first != NIL {
            self.slots[first].prev = h;
        } else {
            self.tail = h;
        }
        self.head = h;
        self.count = self.count + 1;
        self.live = Ghost(seq![h] + live);
        proof {
            let after = seq![h] + live;
            assert(after.no_duplicates()) by {
                assert forall|i: int, j: int|
                    0 <= i < after.len() && 0 <= j < after.len() && i != j implies after[i]
                    != after[j] by {}
            }
            assert forall|q: int| 0 <= q < after.len() implies #[trigger] self.linked_at(q) by {
                if q > 0 {
                    assert(before.linked_at(q - 1));
                }
            }
            assert forall|q: int| 0 <= q < self.idle@.len() implies #[trigger] self.idle_at(q) by {
                assert(before.idle_at(q));
            }
        }
    }

    /// Inserts `item` as the most recently used one and returns its handle.
    /// A slot that an earlier removal left empty is used again before the
    /// arena grows.
    pub fn push_front(&mut self, item: T) -> (h: usize)
        requires
            old(self).wf(),
        ensures
            final(self).wf(),
            !old(self).has(h),
            final(self).handles() == seq![h] + old(self).handles(),
            final(self).item(h) == item,
            forall|g: usize| old(self).has(g) ==> #[trigger] final(self).item(g)
                == old(self).item(g),
            final(self)@ == seq![item] + old(self)@,
            old(self).spare().len() > 0 ==> h == old(self).spare()[0]
                && final(self).spare() == old(self).spare().drop_first()
                && final(self).slot_count() == old(self).slot_count(),
            old(self).spare().len() == 0 ==> h == old(self).slot_count()
                && final(self).spare() == old(self).spare()
                && final(self).slot_count() == old(self).slot_count() + 1,
    {
        let ghost before = *self;
        let h: usize;
        if self.free != NIL {
            h = self.free;
            proof {
                assert(before.idle_at(0));
                if before.live@.contains(h) {
                    assert(before.linked_at(before.live@.index_of(h)));
                }
            }
            self.free = self.slots[h].next;
            self.slots[h].item = Some(item);
            self.idle = Ghost(self.idle@.drop_first());
            proof {
                let rest = before.idle@.drop_first();
                assert forall|q: int| 0 <= q < rest.len() implies #[trigger] self.idle_at(q) by {
                    assert(before.idle_at(q + 1));
                }
                assert(rest.no_duplicates()) by {
                    assert forall|i: int, j: int|
                        0 <= i < rest.len() && 0 <= j < rest.len() && i != j implies rest[i]
                        != rest[j] by {}
                }
                assert forall|p: int| 0 <= p < self.live@.len() implies #[trigger] self.linked_at(
                    p,
                ) by {
                    assert(before.linked_at(p));
                }
            }
        } else {
            h = self.slots.len();
            self.slots.push(Slot { item: Some(item), prev: NIL, next: NIL });
            proof {
                assert(self.slots@.len() == self.slots.len());
                if before.idle@.len() > 0 {
                    assert(before.idle_at(0));
                }
                if before.live@.contains(h) {
                    assert(before.linked_at(before.live@.index_of(h)));
                }
                assert forall|p: int| 0 <= p < self.live@.len() implies #[trigger] self.linked_at(
                    p,
                ) by {
                    assert(before.linked_at(p));
                }
                assert forall|q: int| 0 <= q < self.idle@.len() implies #[trigger] self.idle_at(
                    q,
                ) by {
                    assert(before.idle_at(q));
                }
            }
        }
        self.attach_front(h);
        proof {
            assert forall|g: usize| before.has(g) implies #[trigger] self.item(g) == before.item(
                g,
            ) by {
                assert(before.linked_at(before.live@.index_of(g)));
            }
        }
        h
    }

    /// Unlinks the live slot `h`, hands its item back, and keeps the slot for
    /// a later insertion. The handle `h` is no longer valid.
    pub fn remove(&mut self, h: usize) -> (item: T)
        requires
            old(self).wf(),
            old(self).has(h),
        ensures
            final(self).wf(),
            item == old(self).item(h),
            final(self).handles() == old(self).handles().remove(old(self).position(h)),
            !final(self).has(h),
            forall|g: usize| final(self).has(g) ==> #[trigger] final(self).item(g)
                == old(self).item(g),
            forall|g: usize| #[trigger] final(self).has(g) <==> old(self).has(g) && g != h,
            final(self)@ == old(self)@.remove(old(self).position(h)),
            final(self).spare() == seq![h] + old(self).spare(),
            final(self).slot_count() == old(self).slot_count(),
    {
        let ghost before = *self;
        let ghost p = before.live@.index_of(h);
        proof {
            assert(before.linked_at(p));
            lemma_remove_members(before.live@, p);
        }
        self.detach(h);
        let ghost mid = *self;
        let taken = self.slots[h].item.take();
        self.slots[h].next = self.free;
        self.free = h;
        self.idle = Ghost(seq![h] + self.idle@);
        proof {
            let now = seq![h] + mid.idle@;
            assert(!mid.idle@.contains(h)) by {
                if mid.idle@.contains(h) {
                    assert(mid.idle_at(mid.idle@.index_of(h)));
                }
            }
            assert(now.no_duplicates()) by {
                assert forall|i: int, j: int|
                    0 <= i < now.len() && 0 <= j < now.len() && i != j implies now[i]
                    != now[j] by {}
            }
            assert forall|q: int| 0 <= q < now.len() implies #[trigger] self.idle_at(q) by {
                if q > 0 {
                    assert(mid.idle_at(q - 1));
                }
            }
            assert forall|q: int| 0 <= q < self.live@.len() implies #[trigger] self.linked_at(
                q,
            ) by {
                assert(mid.linked_at(q));
            }
            assert forall|g: usize| self.has(g) implies #[trigger] self.item(g) == before.item(
                g,
            ) by {
                let q = self.live@.index_of(g);
                assert(mid.linked_at(q));
            }
            assert(self@ =~= before@.remove(p)) by {
                assert forall|q: int| 0 <= q < self.live@.len() implies self@[q] == before@.remove(
                    p,
                )[q] by {}
            }
        }
        taken.unwrap()
    }

    /// Makes the live slot `h` the most recently used one. Its handle and its
    /// item stay as they are.
    pub fn move_to_front(&mut self, h: usize)
        requires
            old(self).wf(),
            old(self).has(h),
        ensures
            final(self).wf(),
            final(self).handles() == seq![h] + old(self).handles().remove(old(self).position(h)),
            forall|g: usize| old(self).has(g) ==> #[trigger] final(self).item(g)
                == old(self).item(g),
            forall|g: usize| old(self).has(g) <==> final(self).has(g),
            final(self)@ == seq![old(self).item(h)] + old(self)@.remove(old(self).position(h)),
            final(self).spare() == old(self).spare(),
            final(self).slot_count() == old(self).slot_count(),
    {
        let ghost before = *self;
        let ghost p = before.live@.index_of(h);
        proof {
            assert(before.linked_at(p));
        }
        self.detach(h);
        self.attach_front(h);
        proof {
            assert forall|g: usize| before.has(g) implies #[trigger] self.item(g) == before.item(
                g,
            ) by {
                assert(before.linked_at(before.live@.index_of(g)));
            }
            assert forall|g: usize| before.has(g) <==> self.has(g) by {
                if before.has(g) {
                    let q = before.live@.index_of(g);
                    if q != p {
                        let r = if q < p { q } else { q - 1 };
                        assert(self.live@[r + 1] == g);
                    }
                }
            }
            assert(self@ =~= seq![before.item(h)] + before@.remove(p)) by {
                assert forall|q: int| 0 <= q < self.live@.len() implies self@[q] == (seq![
                    before.item(h),
                ] + before@.remove(p))[q] by {}
            }
        }
    }

    /// Replaces the item in the live slot `h` and hands the old one back.
    /// The recency order does not change.
    pub fn set(&mut self, h: usize, item: T) -> (old_item: Option<T>)
        requires
            old(self).wf(),
            old(self).has(h),
        ensures
            final(self).wf(),
            old_item == Some(old(self).item(h)),
            final(self).handles() == old(self).handles(),
            final(self).item(h) == item,
            forall|g: usize|
                old(self).has(g) && g != h ==> #[trigger] final(self).item(g) == old(self).item(g),
            final(self)@ == old(self)@.update(old(self).position(h), item),
            final(self).spare() == old(self).spare(),
            final(self).slot_count() == old(self).slot_count(),
    {
        let ghost before = *self;
        let ghost p = before.live@.index_of(h);
        proof {
            assert(before.linked_at(p));
        }
        let taken = self.slots[h].item.take();
        self.slots[h].item = Some(item);
        proof {
            assert forall|q: int| 0 <= q < self.live@.len() implies #[trigger] self.linked_at(
                q,
            ) by {
                assert(before.linked_at(q));
            }
            assert forall|q: int| 0 <= q < self.idle@.len() implies #[trigger] self.idle_at(
                q,
            ) by {
                assert(before.idle_at(q));
            }
            assert forall|g: usize| before.has(g) && g != h implies #[trigger] self.item(g)
                == before.item(g) by {
                assert(before.linked_at(before.live@.index_of(g)));
            }
            assert(self@ =~= before@.update(p, item)) by {
                assert forall|q: int| 0 <= q < self.live@.len() implies self@[q] == before@.update(
                    p,
                    item,
                )[q] by {}
            }
        }
        taken
    }

    /// The item in the live slot `h`, to be changed in place.
    pub fn get_mut(&mut self, h: usize) -> (item: &mut T)
        requires
            old(self).wf(),
            old(self).has(h),
        ensures
            *item == old(self).item(h),
            final(self).wf(),
            final(self).handles() == old(self).handles(),
            final(self).spare() == old(self).spare(),
            final(self).slot_count() == old(self).slot_count(),
            final(self).item(h) == *final(item),
            forall|g: usize|
                old(self).has(g) && g != h ==> #[trigger] final(self).item(g) == old(self).item(g),
    {
        let ghost before = *self;
        let ghost after = *final(self);
        proof {
            let p = self.live@.index_of(h);
            assert(self.linked_at(p));
        }
        let item = match &mut self.slots[h].item {
            Some(item) => item,
            None => vstd::pervasive::unreached(),
        };
        proof {
            assert forall|q: int| 0 <= q < before.live@.len()
                implies #[trigger] after.linked_at(q) by {
                assert(before.linked_at(q));
            }
            assert forall|q: int| 0 <= q < before.idle@.len()
                implies #[trigger] after.idle_at(q) by {
                assert(before.idle_at(q));
            }
            assert forall|g: usize| before.has(g) && g != h implies #[trigger] after.item(g)
                == before.item(g) by {
                assert(before.linked_at(before.live@.index_of(g)));
            }
        }
        item
    }

    /// Drops every item. No handle is valid afterwards.
    pub fn clear(&mut self)
        ensures
            final(self).wf(),
            final(self).handles() == Seq::<usize>::empty(),
            final(self).spare() == Seq::<usize>::empty(),
            final(self).slot_count() == 0,
    {
        self.slots.clear();
        self.head = NIL;
        self.tail = NIL;
        self.free = NIL;
        self.count = 0;
        self.live = Ghost(Seq::empty());
        self.idle = Ghost(Seq::empty());
    }

    /// The live items, most recently used first, each by reference. This is
    /// the state at the time of the call: the arena cannot change while the
    /// references are held.
    pub fn to_vec(&self) -> (items: Vec<&T>)
        requires
            self.wf(),
        ensures
            items@.unref() == self@,
    {
        let mut items: Vec<&T> = Vec::with_capacity(self.count);
        let n = self.slots.len();
        let mut cur = self.head;
        let ghost mut p: int = 0;
        while cur != NIL
            invariant
                self.wf(),
                n == self.slots@.len(),
                0 <= p <= self.live@.len(),
                cur == link_to(self.live@, p),
                items@.len() == p,
                forall|i: int| 0 <= i < p ==> *(#[trigger] items@[i]) == self.item(self.live@[i]),
            decreases self.live@.len() - p,
        {
            proof {
                if p < self.live@.len() {
                    assert(self.linked_at(p));
                }
            }
            items.push(self.slots[cur].item.as_ref().unwrap());
            cur = self.slots[cur].next;
            proof {
                p = p + 1;
            }
        }
        proof {
            if p < self.live@.len() {
                assert(self.linked_at(p));
            }
        }
        items
    }

    /// The live items in recency order, most recently used first.
    pub fn iter(&self) -> (items: std::vec::IntoIter<&T>)
        requires
            self.wf(),
        ensures
            into_iter_elts(items).unref() == self@,
    {
        let items = self.to_vec();
        items.into_iter()
    }

    /// A second arena with the same slots, handles and order, each item made
    /// from the one here by `copy`.
    pub fn duplicate<F: Fn(&T) -> T>(&self, copy: F) -> (list: Self)
        requires
            forall|x: &T| copy.requires((x,)),
        ensures
            self.wf() ==> list.wf() && list.handles() == self.handles() && list.spare()
                == self.spare() && list.slot_count() == self.slot_count() && forall|h: usize|
                self.has(h) ==> copy.ensures((&self.item(h),), #[trigger] list.item(h)),
    {
        let mut slots: Vec<Slot<T>> = Vec::with_capacity(self.slots.len());
        let mut i: usize = 0;
        while i < self.slots.len()
            invariant
                i <= self.slots@.len(),
                slots@.len() == i,
                forall|x: &T| copy.requires((x,)),
                forall|j: int|
                    0 <= j < i ==> {
                        &&& (#[trigger] slots@[j]).prev == self.slots@[j].prev
                        &&& slots@[j].next == self.slots@[j].next
                        &&& slots@[j].item is Some <==> self.slots@[j].item is Some
                        &&& slots@[j].item is Some ==> copy.ensures(
                            (&self.slots@[j].item->0,),
                            slots@[j].item->0,
                        )
                    },
            decreases self.slots@.len() - i,
        {
            let slot = &self.slots[i];
            let item = match &slot.item {
                Some(x) => Some(copy(x)),
                None => None,
            };
            slots.push(Slot { item, prev: slot.prev, next: slot.next });
            i = i + 1;
        }
        let list = LRUList {
            slots,
            head: self.head,
            tail: self.tail,
            free: self.free,
            count: self.count,
            live: Ghost(self.live@),
            idle: Ghost(self.idle@),
        };
        proof {
            if self.wf() {
                assert forall|p: int| 0 <= p < list.live@.len() implies #[trigger] list.linked_at(
                    p,
                ) by {
                    assert(self.linked_at(p));
                }
                assert forall|q: int| 0 <= q < list.idle@.len() implies #[trigger] list.idle_at(
                    q,
                ) by {
                    assert(self.idle_at(q));
                }
                assert forall|h: usize| self.has(h) implies copy.ensures(
                    (&self.item(h),),
                    #[trigger] list.item(h),
                ) by {
                    assert(self.linked_at(self.live@.index_of(h)));
                }
            }
        }
        list
    }
}

/// Taking position `p` out of a chain without repeats takes out exactly the
/// handle that stood there.
proof fn lemma_remove_members(chain: Seq<usize>, p: int)
    requires
        0 <= p < chain.len(),
        chain.no_duplicates(),
    ensures
        forall|g: usize| #[trigger] chain.remove(p).contains(g) <==> chain.contains(g) && g
            != chain[p],
{
    let rest = chain.remove(p);
    assert forall|g: usize| #[trigger] rest.contains(g) <==> chain.contains(g) && g != chain[p] by {
        if chain.contains(g) && g != chain[p] {
            let o = chain.index_of(g);
            let i = if o < p { o } else { o - 1 };
            assert(rest[i] == g);
        }
    }
}

} // verus!
