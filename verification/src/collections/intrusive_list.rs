//! A doubly-ended list of individually allocated items. The items are owned
//! by the list while they are in it and are handed back to the caller when
//! they leave it, so moving an item in or out never allocates.
use vstd::prelude::*;

use crate::collections::OwnedMutPtr;

verus! {

/// An item that can be linked into an [`IntrusiveList`].
#[derive(Debug, PartialEq)]
pub struct IntrusiveItem<T> {
    inner: T,
}

impl<T> IntrusiveItem<T> {
    pub closed spec fn value(&self) -> T {
        self.inner
    }

    pub fn new(inner: T) -> (item: Self)
        ensures
            item.value() == inner,
    {
        Self { inner }
    }

    /// The value held by the item.
    pub fn get(&self) -> (value: &T)
        ensures
            *value == self.value(),
    {
        &self.inner
    }

    /// Replaces the value held by the item.
    pub fn set(&mut self, value: T)
        ensures
            final(self).value() == value,
    {
        self.inner = value;
    }
}

/// The values of a sequence of owned items.
pub open spec fn item_values<T>(items: Seq<OwnedMutPtr<IntrusiveItem<T>>>) -> Seq<T> {
    items.map_values(|item: OwnedMutPtr<IntrusiveItem<T>>| item.value().value())
}

/// The elements of `s` whose decision in `d` equals `keep`, in order.
pub open spec fn select<T>(s: Seq<T>, d: Seq<bool>, keep: bool) -> Seq<T>
    decreases s.len(),
{
    if s.len() == 0 {
        Seq::empty()
    } else {
        let rest = select(s.drop_last(), d.drop_last(), keep);
        if d.last() == keep {
            rest.push(s.last())
        } else {
            rest
        }
    }
}

/// A list of items, first to last.
#[derive(Debug)]
pub struct IntrusiveList<T> {
    items: Vec<OwnedMutPtr<IntrusiveItem<T>>>,
}

impl<T> View for IntrusiveList<T> {
    type V = Seq<T>;

    closed spec fn view(&self) -> Seq<T> {
        item_values(self.items@)
    }
}

impl<T> IntrusiveList<T> {
    pub fn new() -> (list: Self)
        ensures
            list@ == Seq::<T>::empty(),
    {
        Self { items: Vec::new() }
    }

    /// Appends an item to the tail of the list.
    pub fn push(&mut self, item: OwnedMutPtr<IntrusiveItem<T>>)
        ensures
            final(self)@ == old(self)@.push(item.value().value()),
    {
        self.items.push(item);
        proof {
            assert(item_values(self.items@) =~= item_values(old(self).items@).push(
                item.value().value(),
            ));
        }
    }

    /// Removes the head of the list and returns it.
    pub fn pop(&mut self) -> (item: Option<OwnedMutPtr<IntrusiveItem<T>>>)
        ensures
            old(self)@.len() == 0 ==> item is None && final(self)@ == old(self)@,
            old(self)@.len() > 0 ==> (item matches Some(i) && i.value().value() == old(self)@[0]
                && final(self)@ == old(self)@.drop_first()),
    {
        if self.items.len() == 0 {
            return None;
        }
        let item = self.items.remove(0);
        proof {
            assert(item_values(self.items@) =~= item_values(old(self).items@).drop_first());
        }
        Some(item)
    }

    /// An iterator over the items, first to last, that can also walk from the
    /// back.
    pub fn iter(&self) -> (iter: IntrusiveListIter<'_, T>)
        ensures
            iter.remaining() == self@,
    {
        IntrusiveListIter { items: &self.items, front: 0, back: self.items.len() }
    }

    /// Removes the item at `index`.
    fn remove_element(&mut self, index: usize) -> (item: OwnedMutPtr<IntrusiveItem<T>>)
        requires
            index < old(self)@.len(),
        ensures
            item.value().value() == old(self)@[index as int],
            final(self)@ == old(self)@.remove(index as int),
    {
        let item = self.items.remove(index);
        proof {
            assert(item_values(self.items@) =~= item_values(old(self).items@).remove(
                index as int,
            ));
        }
        item
    }

    /// Removes the item at `index`, counted from the head.
    pub fn remove(&mut self, index: usize) -> (item: Option<OwnedMutPtr<IntrusiveItem<T>>>)
        ensures
            index >= old(self)@.len() ==> item is None && final(self)@ == old(self)@,
            index < old(self)@.len() ==> (item matches Some(i) && i.value().value() == old(self)@[index as int] && final(self)@ == old(self)@.remove(index as int)),
    {
        if index >= self.items.len() {
            return None;
        }
        Some(self.remove_element(index))
    }

    /// Moves the items for which `filter` answers `true` to a new list,
    /// keeping the order of both.
    pub fn drain_filter<F: Fn(&T) -> bool>(&mut self, filter: F) -> (removed: IntrusiveList<T>)
        requires
            forall|i: int| 0 <= i < old(self)@.len() ==> #[trigger] filter.requires((&old(self)@[i],)),
        ensures
            exists|d: Seq<bool>|
                {
                    &&& d.len() == old(self)@.len()
                    &&& forall|i: int|
                        0 <= i < d.len() ==> #[trigger] filter.ensures((&old(self)@[i],), d[i])
                    &&& final(self)@ == select(old(self)@, d, false)
                    &&& removed@ == select(old(self)@, d, true)
                },
    {
        let mut removed = Self::new();
        let mut kept: Vec<OwnedMutPtr<IntrusiveItem<T>>> = Vec::new();
        let ghost d: Seq<bool> = Seq::empty();
        let ghost all = old(self)@;
        while self.items.len() > 0
            invariant
                forall|i: int| 0 <= i < all.len() ==> #[trigger] filter.requires((&all[i],)),
                d.len() + self@.len() == all.len(),
                self@ == all.skip(d.len() as int),
                forall|i: int| 0 <= i < d.len() ==> #[trigger] filter.ensures((&all[i],), d[i]),
                item_values(kept@) == select(all.take(d.len() as int), d, false),
                removed@ == select(all.take(d.len() as int), d, true),
            decreases self.items.len(),
        {
            let ghost pre = self.items@;
            let item = self.items.remove(0);
            proof {
                let k = d.len() as int;
                assert(item_values(pre)[0] == item.value().value());
                assert(item_values(pre)[0] == all.skip(k)[0]);
                assert(item.value().value() == all[k]);
            }
            let value = item.get().get();
            let decision = filter(value);
            proof {
                let k = d.len() as int;
                assert(item_values(self.items@) =~= item_values(pre).drop_first());
                let d2 = d.push(decision);
                assert(all.take(k + 1).drop_last() =~= all.take(k));
                assert(d2.drop_last() =~= d);
                d = d2;
            }
            if decision {
                removed.push(item);
            } else {
                kept.push(item);
                proof {
                    assert(item_values(kept@) =~= item_values(kept@.drop_last()).push(
                        kept@.last().value().value(),
                    ));
                }
            }
            proof {
                assert(self@ =~= all.skip(d.len() as int));
            }
        }
        self.items = kept;
        proof {
            assert(all.take(d.len() as int) =~= all);
        }
        removed
    }

    pub fn is_empty(&self) -> (empty: bool)
        ensures
            empty == (self@.len() == 0),
    {
        self.items.len() == 0
    }

    /// Consumes the list, handing each item to `free`, head first.
    pub fn release<F: Fn(OwnedMutPtr<IntrusiveItem<T>>)>(self, free: F)
        requires
            forall|x: OwnedMutPtr<IntrusiveItem<T>>| #[trigger] free.requires((x,)),
    {
        let mut items = self.items;
        while items.len() > 0
            invariant
                forall|x: OwnedMutPtr<IntrusiveItem<T>>| #[trigger] free.requires((x,)),
            decreases items.len(),
        {
            let item = items.remove(0);
            free(item);
        }
    }
}

/// Iterator over an [`IntrusiveList`] from both ends.
#[derive(Debug)]
pub struct IntrusiveListIter<'a, T> {
    items: &'a Vec<OwnedMutPtr<IntrusiveItem<T>>>,
    front: usize,
    back: usize,
}

impl<'a, T> IntrusiveListIter<'a, T> {
    #[verifier::type_invariant]
    spec fn bounds(&self) -> bool {
        self.front <= self.back <= self.items@.len()
    }

    /// The values not yet yielded from either end, in list order.
    pub closed spec fn remaining(&self) -> Seq<T> {
        item_values(self.items@).subrange(self.front as int, self.back as int)
    }

    /// The next item from the head.
    pub fn next(&mut self) -> (item: Option<&'a IntrusiveItem<T>>)
        ensures
            old(self).remaining().len() == 0 ==> item is None && final(self).remaining()
                == old(self).remaining(),
            old(self).remaining().len() > 0 ==> (item matches Some(i) && i.value() == old(self).remaining()[0] && final(self).remaining() == old(self).remaining().drop_first()),
    {
        proof {
            use_type_invariant(&*self);
        }
        if self.front >= self.back {
            return None;
        }
        let item = self.items[self.front].get();
        self.front = self.front + 1;
        proof {
            assert(final(self).remaining() =~= old(self).remaining().drop_first());
        }
        Some(item)
    }

    /// The next item from the tail.
    pub fn next_back(&mut self) -> (item: Option<&'a IntrusiveItem<T>>)
        ensures
            old(self).remaining().len() == 0 ==> item is None && final(self).remaining()
                == old(self).remaining(),
            old(self).remaining().len() > 0 ==> (item matches Some(i) && i.value() == old(self).remaining().last() && final(self).remaining() == old(self).remaining().drop_last()),
    {
        proof {
            use_type_invariant(&*self);
        }
        if self.front >= self.back {
            return None;
        }
        self.back = self.back - 1;
        let item = self.items[self.back].get();
        Some(item)
    }
}

} // verus!
