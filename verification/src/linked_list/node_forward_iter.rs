use vstd::prelude::*;

use super::{chain_values, Node};

verus! {

/// Walks a list by shared reference, from a node to the end of its list.
pub struct NodeForwardIter<'a, T> {
    pub current: Option<&'a Node<T>>,
}

impl<'a, T> NodeForwardIter<'a, T> {
    /// The values that the walk has still to hand out, in list order.
    pub open spec fn view(&self) -> Seq<T> {
        match self.current {
            None => Seq::empty(),
            Some(node) => node@,
        }
    }

    /// Hands out the value of the current node and steps to the next node;
    /// `None` once the walk has passed the last node.
    pub fn next(&mut self) -> (item: Option<&'a T>)
        ensures
            old(self)@.len() == 0 ==> item is None && final(self)@ == old(self)@,
            old(self)@.len() > 0 ==> item == Some(&old(self)@[0]) && final(self)@
                == old(self)@.drop_first(),
    {
        match self.current {
            None => None,
            Some(current) => {
                let value = &current.value;
                proof {
                    Node::lemma_unfold(*current);
                }
                self.current = match &current.next {
                    None => None,
                    Some(b) => Some(&**b),
                };
                proof {
                    assert(self@ =~= old(self)@.drop_first());
                }
                Some(value)
            },
        }
    }
}

} // verus!
