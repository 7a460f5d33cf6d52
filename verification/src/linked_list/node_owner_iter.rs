use vstd::prelude::*;

use super::Node;

verus! {

/// Walks a list that it owns, handing out a copy of each value and dropping
/// each node once it has been passed.
pub struct NodeOwnerIter<T> {
    pub current: Option<Node<T>>,
}

/// One step of the owning walk: from the values `before` still to hand
/// out, it hands out `item` and leaves `after`. An empty walk hands out
/// `None` and stays empty; otherwise it hands out a clone of the first value
/// and drops it.
pub open spec fn owner_step<T: Clone>(before: Seq<T>, after: Seq<T>, item: Option<T>) -> bool {
    if before.len() == 0 {
        item is None && after == before
    } else {
        item is Some && cloned(before[0], item->0) && after == before.drop_first()
    }
}

impl<T: Clone> NodeOwnerIter<T> {
    /// The values that the walk has still to hand out, in list order.
    pub open spec fn view(&self) -> Seq<T> {
        match self.current {
            None => Seq::empty(),
            Some(node) => node@,
        }
    }

    /// Hands out a clone of the current value and moves on to the next node;
    /// `None` once every value has been handed out.
    pub fn next(&mut self) -> (item: Option<T>)
        ensures
            owner_step(old(self)@, final(self)@, item),
    {
        let mut taken: Option<Node<T>> = None;
        std::mem::swap(&mut taken, &mut self.current);
        match taken {
            None => None,
            Some(mut current) => {
                proof {
                    Node::lemma_unfold(current);
                }
                let value = current.value.clone();
                let mut after: Option<Box<Node<T>>> = None;
                std::mem::swap(&mut after, &mut current.next);
                match after {
                    None => {},
                    Some(next_node) => {
                        self.current = Some(*next_node);
                    },
                }
                proof {
                    assert(self@ =~= old(self)@.drop_first());
                }
                Some(value)
            },
        }
    }
}

/// Draining the owning walk hands out the list's values in order and then
/// `None` ever after: for any run of calls of `next`, each step as
/// `owner_step` describes it, starting from the values of the list that
/// `into_iter` moved in, the `i`-th call hands out a clone of the `i`-th
/// value while there is one, and `None` after the last.
pub proof fn law_owner_iter_hands_out_values<T: Clone>(
    states: Seq<Seq<T>>,
    items: Seq<Option<T>>,
)
    requires
        states.len() == items.len() + 1,
        forall|i: int| 0 <= i < items.len() ==> owner_step(states[i], states[i + 1], #[trigger] items[i]),
    ensures
        forall|i: int|
            0 <= i < items.len() && i < states[0].len() ==> #[trigger] items[i] is Some && cloned(
                states[0][i],
                items[i]->0,
            ),
        forall|i: int| 0 <= i < items.len() && states[0].len() <= i ==> #[trigger] items[i] is None,
{
    let values = states[0];
    assert forall|i: int| 0 <= i < states.len() implies #[trigger] states[i] == values.skip(
        if i < values.len() {
            i
        } else {
            values.len() as int
        },
    ) by {
        lemma_states_are_suffixes(states, items, i);
    }
    assert forall|i: int|
        0 <= i < items.len() && i < values.len() implies #[trigger] items[i] is Some && cloned(
            values[i],
            items[i]->0,
        ) by {
        assert(states[i] == values.skip(i));
        assert(owner_step(states[i], states[i + 1], items[i]));
    }
    assert forall|i: int| 0 <= i < items.len() && values.len() <= i implies #[trigger] items[i] is None by {
        assert(states[i] == values.skip(values.len() as int));
        assert(owner_step(states[i], states[i + 1], items[i]));
    }
}

/// After `i` steps the walk still holds the values from index `i` on.
proof fn lemma_states_are_suffixes<T: Clone>(states: Seq<Seq<T>>, items: Seq<Option<T>>, i: int)
    requires
        states.len() == items.len() + 1,
        forall|j: int| 0 <= j < items.len() ==> owner_step(states[j], states[j + 1], #[trigger] items[j]),
        0 <= i < states.len(),
    ensures
        states[i] == states[0].skip(
            if i < states[0].len() {
                i
            } else {
                states[0].len() as int
            },
        ),
    decreases i,
{
    let values = states[0];
    if i == 0 {
        assert(values.skip(0) =~= values);
    } else {
        lemma_states_are_suffixes(states, items, i - 1);
        assert(owner_step(states[i - 1], states[i], items[i - 1]));
        if i - 1 < values.len() {
            assert(values.skip(i - 1).drop_first() =~= values.skip(i));
        }
    }
}

} // verus!
