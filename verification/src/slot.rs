//! A slot between a producer and a consumer that keeps the newest item only.

use vstd::prelude::*;

verus! {

/// Holds at most one item: a new one takes the place of one that was not taken in time.
pub struct Latest<T> {
    pub item: Option<T>,
}

impl<T> Latest<T> {
    /// The slot once `value` has been put in.
    pub open spec fn holding(self, value: T) -> Latest<T> {
        Latest { item: Some(value) }
    }

    /// The slot once its item has been taken out.
    pub open spec fn emptied(self) -> Latest<T> {
        Latest { item: None }
    }

    pub fn new() -> (res: Latest<T>)
        ensures
            res.item is None,
    {
        Latest { item: None }
    }

    /// Puts an item in, dropping the one that is there.
    pub fn put(&mut self, value: T)
        ensures
            *final(self) == old(self).holding(value),
            final(self).item == Some(value),
    {
        self.item = Some(value);
    }

    /// Takes out the item that is there, if any.
    pub fn take(&mut self) -> (res: Option<T>)
        ensures
            res == old(self).item,
            *final(self) == old(self).emptied(),
            final(self).item is None,
    {
        self.item.take()
    }
}

/// The slot after each of `values` has been put in, one after the other.
pub open spec fn after_puts<T>(slot: Latest<T>, values: Seq<T>) -> Latest<T>
    decreases values.len(),
{
    if values.len() == 0 {
        slot
    } else {
        after_puts(slot, values.drop_last()).holding(values.last())
    }
}

/// However many items were put in since the last take, the slot holds the newest of them.
pub proof fn law_latest_wins<T>(slot: Latest<T>, values: Seq<T>)
    requires
        values.len() > 0,
    ensures
        after_puts(slot, values).item == Some(values.last()),
{
}

/// What comes out of a slot in a run of puts (`true`) and takes (`false`), where the items put
/// in are numbered from `next` on.
pub open spec fn deliveries(slot: Latest<int>, next: int, ops: Seq<bool>) -> Seq<int>
    decreases ops.len(),
{
    if ops.len() == 0 {
        Seq::empty()
    } else if ops[0] {
        deliveries(slot.holding(next), next + 1, ops.drop_first())
    } else {
        match slot.item {
            Some(v) => seq![v] + deliveries(slot.emptied(), next, ops.drop_first()),
            None => deliveries(slot.emptied(), next, ops.drop_first()),
        }
    }
}

/// Whatever the order of puts and takes, items come out in the order in which they were put in,
/// none of them twice: a stale item never follows a fresh one.
pub proof fn law_never_stale(slot: Latest<int>, next: int, ops: Seq<bool>)
    requires
        slot.item is Some ==> slot.item->Some_0 < next,
    ensures
        forall|i: int, j: int|
            0 <= i < j < deliveries(slot, next, ops).len() ==> deliveries(slot, next, ops)[i]
                < deliveries(slot, next, ops)[j],
{
    lemma_deliveries(slot, next, ops);
}

proof fn lemma_deliveries(slot: Latest<int>, next: int, ops: Seq<bool>)
    requires
        slot.item is Some ==> slot.item->Some_0 < next,
    ensures
        forall|i: int, j: int|
            0 <= i < j < deliveries(slot, next, ops).len() ==> deliveries(slot, next, ops)[i]
                < deliveries(slot, next, ops)[j],
        forall|i: int|
            0 <= i < deliveries(slot, next, ops).len() ==> #[trigger] deliveries(
                slot,
                next,
                ops,
            )[i] >= (if slot.item is Some {
                slot.item->Some_0
            } else {
                next
            }),
    decreases ops.len(),
{
    if ops.len() == 0 {
        assert(deliveries(slot, next, ops).len() == 0);
    } else {
        let rest = ops.drop_first();
        if ops[0] {
            lemma_deliveries(slot.holding(next), next + 1, rest);
            assert(deliveries(slot, next, ops) == deliveries(slot.holding(next), next + 1, rest));
        } else {
            lemma_deliveries(slot.emptied(), next, rest);
            if let Some(v) = slot.item {
                let later = deliveries(slot.emptied(), next, rest);
                let all = deliveries(slot, next, ops);
                assert(all == seq![v] + later);
                assert(forall|i: int| 1 <= i < all.len() ==> #[trigger] all[i] == later[i - 1]);
                assert forall|i: int| 0 <= i < all.len() implies #[trigger] all[i] >= v by {
                    if i > 0 {
                        assert(later[i - 1] >= next);
                    }
                }
                assert forall|i: int, j: int| 0 <= i < j < all.len() implies all[i] < all[j] by {
                    assert(later[j - 1] >= next);
                    if i > 0 {
                        assert(later[i - 1] < later[j - 1]);
                    }
                }
            } else {
                assert(deliveries(slot, next, ops) == deliveries(slot.emptied(), next, rest));
            }
        }
    }
}

/// An item that is put in comes out of the next take, whatever was there before, and after a take
/// there is nothing to take.
pub proof fn law_put_then_take<T>(slot: Latest<T>, value: T)
    ensures
        slot.holding(value).item == Some(value),
        slot.holding(value).emptied().item is None,
        slot.emptied().item is None,
{
}

} // verus!
