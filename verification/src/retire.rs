//! Objects the GPU may still be reading, each held until a timeline value is
//! reached.

use vstd::prelude::*;

verus! {

/// A counter value of one GPU timeline.
pub type TimelineValue = u64;

/// An item and the timeline value after which nothing reads it.
pub struct Retired<T> {
    pub value: TimelineValue,
    pub item: T,
}

/// Items waiting for their timeline values, oldest first.
pub struct RetireQueue<T> {
    pub items: Vec<Retired<T>>,
}

/// The items whose value has been reached, in order.
pub open spec fn due<T>(items: Seq<Retired<T>>, current: u64) -> Seq<T>
    decreases items.len(),
{
    if items.len() == 0 {
        Seq::empty()
    } else {
        let rest = due(items.drop_last(), current);
        if items.last().value <= current {
            rest.push(items.last().item)
        } else {
            rest
        }
    }
}

/// The items whose value has not been reached, in order.
pub open spec fn waiting<T>(items: Seq<Retired<T>>, current: u64) -> Seq<Retired<T>>
    decreases items.len(),
{
    if items.len() == 0 {
        Seq::empty()
    } else {
        let rest = waiting(items.drop_last(), current);
        if items.last().value <= current {
            rest
        } else {
            rest.push(items.last())
        }
    }
}

/// Every item, in order.
pub open spec fn contents<T>(items: Seq<Retired<T>>) -> Seq<T> {
    Seq::new(items.len(), |i: int| items[i].item)
}

impl<T> View for RetireQueue<T> {
    type V = Seq<Retired<T>>;

    open spec fn view(&self) -> Seq<Retired<T>> {
        self.items@
    }
}

impl<T> RetireQueue<T> {
    pub fn new() -> (q: Self)
        ensures
            q@ == Seq::<Retired<T>>::empty(),
    {
        RetireQueue { items: Vec::new() }
    }

    pub fn is_empty(&self) -> (r: bool)
        ensures
            r == (self@.len() == 0),
    {
        self.items.len() == 0
    }

    /// Holds `item` until `value` is reached.
    pub fn push(&mut self, value: TimelineValue, item: T)
        ensures
            final(self)@ == old(self)@.push(Retired { value, item }),
    {
        self.items.push(Retired { value, item });
    }

    /// Hands out every item whose value has been reached.
    pub fn collect(&mut self, current: TimelineValue) -> (out: Vec<T>)
        ensures
            out@ == due(old(self)@, current),
            final(self)@ == waiting(old(self)@, current),
    {
        let ghost orig = self.items@;
        let mut out: Vec<T> = Vec::new();
        let mut keep: Vec<Retired<T>> = Vec::new();
        let mut all: Vec<Retired<T>> = Vec::new();
        all.append(&mut self.items);
        let ghost mut n: int = 0;
        proof {
            assert(all@ =~= orig);
            assert(orig.take(0) =~= Seq::empty());
        }
        // The oldest items come first, so the queue is walked from its back end
        // over a reversed copy.
        let mut rev: Vec<Retired<T>> = Vec::new();
        while all.len() > 0
            invariant
                all.len() + rev.len() == orig.len(),
                all@ == orig.take(all.len() as int),
                forall|i: int| 0 <= i < rev.len() ==> rev[i] == #[trigger] orig[orig.len() - 1 - i],
            decreases all.len(),
        {
            let ghost before = all@;
            if let Some(x) = all.pop() {
                rev.push(x);
            }
            proof {
                assert(all@ =~= orig.take(all.len() as int));
            }
        }
        while rev.len() > 0
            invariant
                rev.len() + n == orig.len(),
                0 <= n,
                forall|i: int| 0 <= i < rev.len() ==> rev[i] == #[trigger] orig[orig.len() - 1 - i],
                out@ == due(orig.take(n), current),
                keep@ == waiting(orig.take(n), current),
            decreases rev.len(),
        {
            proof {
                assert(orig.take(n + 1).drop_last() =~= orig.take(n));
                assert(rev[rev.len() - 1] == orig[orig.len() - 1 - (rev.len() - 1)]);
                assert(orig.take(n + 1).last() == orig[n]);
            }
            if let Some(x) = rev.pop() {
                if x.value <= current {
                    out.push(x.item);
                } else {
                    keep.push(x);
                }
            }
            proof {
                n = n + 1;
            }
        }
        proof {
            assert(orig.take(n) =~= orig);
        }
        self.items = keep;
        out
    }

    /// Hands out every item, reached or not.
    pub fn collect_all(&mut self) -> (out: Vec<T>)
        ensures
            out@ == contents(old(self)@),
            final(self)@ == Seq::<Retired<T>>::empty(),
    {
        let out = self.collect(u64::MAX);
        proof {
            law_everything_is_due_in_the_end(old(self)@);
        }
        out
    }
}

/// At the last timeline value nothing waits.
pub proof fn law_everything_is_due_in_the_end<T>(items: Seq<Retired<T>>)
    ensures
        due(items, u64::MAX) == contents(items),
        waiting(items, u64::MAX) == Seq::<Retired<T>>::empty(),
    decreases items.len(),
{
    if items.len() > 0 {
        law_everything_is_due_in_the_end(items.drop_last());
        assert(due(items, u64::MAX) =~= contents(items));
    } else {
        assert(due(items, u64::MAX) =~= contents(items));
    }
}

/// Nothing leaves the queue early and nothing is lost: what `collect` hands out
/// and what it keeps are together as many as were held, and everything kept
/// still waits.
pub proof fn law_nothing_is_released_early<T>(items: Seq<Retired<T>>, current: u64)
    ensures
        due(items, current).len() + waiting(items, current).len() == items.len(),
        forall|i: int|
            0 <= i < waiting(items, current).len() ==> (#[trigger] waiting(items, current)[i]).value
                > current,
        forall|k: int|
            0 <= k < items.len() && items[k].value > current ==> waiting(items, current).contains(
                #[trigger] items[k],
            ),
    decreases items.len(),
{
    if items.len() > 0 {
        law_nothing_is_released_early(items.drop_last(), current);
        let rest = waiting(items.drop_last(), current);
        let all = waiting(items, current);
        assert forall|k: int| 0 <= k < items.len() && items[k].value > current implies all.contains(
            #[trigger] items[k],
        ) by {
            if k < items.len() - 1 {
                assert(items.drop_last()[k] == items[k]);
                let j = choose|j: int| 0 <= j < rest.len() && rest[j] == items[k];
                assert(all[j] == items[k]);
            } else {
                assert(all[all.len() - 1] == items[k]);
            }
        }
    }
}

} // verus!
