use vstd::prelude::*;

pub mod node_forward_iter;
pub mod node_owner_iter;

verus! {

/// A node of a singly linked list; the node owns every node after it.
pub struct Node<T> {
    pub(crate) value: T,
    pub(crate) next: Option<Box<Node<T>>>,
}

/// The values held by an optional chain of nodes, in list order.
pub open spec fn chain_values<T>(chain: Option<Box<Node<T>>>) -> Seq<T>
    decreases chain,
{
    match chain {
        None => Seq::empty(),
        Some(n) => n.values(),
    }
}

impl<T> Node<T> {
    /// The values of this node and of every node after it, in list order.
    pub closed spec fn values(self) -> Seq<T>
        decreases self,
    {
        seq![self.value] + chain_values(self.next)
    }

    /// The values of the list that starts at this node.
    pub open spec fn view(&self) -> Seq<T> {
        self.values()
    }

    /// A list is its first value followed by the values of the rest.
    pub(crate) proof fn lemma_unfold(node: Node<T>)
        ensures
            node@ == seq![node.value] + chain_values(node.next),
            node@.len() >= 1,
            node@[0] == node.value,
    {
    }

    /// Every list holds at least one value: the value of its first node.
    pub proof fn law_list_not_empty(node: &Node<T>)
        ensures
            node@.len() >= 1,
    {
        Node::lemma_unfold(*node);
    }

    /// Walks the list by shared reference, starting with this node.
    pub fn iter_forward(&self) -> (iter: node_forward_iter::NodeForwardIter<'_, T>)
        ensures
            iter@ == self@,
    {
        node_forward_iter::NodeForwardIter { current: Some(self) }
    }

    /// Creates a list of one node that holds `value`.
    pub fn new(value: T) -> (node: Box<Self>)
        ensures
            node@ == seq![value],
    {
        let node = Box::new(Node { value, next: None });
        assert(node@ =~= seq![value]);
        node
    }

    /// Creates a node that holds `value`, links it right after this one and
    /// hands it back.
    pub fn insert(&mut self, value: T) -> (inserted: &mut Node<T>)
        ensures
            inserted@ == seq![value] + old(self)@.drop_first(),
            final(self)@ == seq![old(self)@[0]] + final(inserted)@,
    {
        let mut new_node = Node::new(value);
        new_node.next = self.next.take();
        self.next = Some(new_node);
        match &mut self.next {
            Some(b) => &mut **b,
            None => { assert(false); unreached() }
        }
    }
}


/// The number of nodes in an optional chain.
pub open spec fn chain_len<T>(chain: Option<Box<Node<T>>>) -> nat {
    chain_values(chain).len()
}

impl<T> Node<T> {
    /// Builds a list that holds `values` in their order; there must be at
    /// least one value.
    pub fn from_iter(values: Vec<T>) -> (list: Self)
        requires
            values.len() > 0,
        ensures
            list@ == values@,
    {
        let ghost given = values@;
        let mut values = values;
        let last = values.pop().unwrap();
        let mut list = Node { value: last, next: None };
        proof {
            Node::lemma_unfold(list);
            assert(list@ =~= values@.subrange(values@.len() as int, values@.len() as int) + seq![
                last,
            ]);
        }
        while values.len() > 0
            invariant
                list@ == given.skip(values@.len() as int),
                values@ == given.take(values@.len() as int),
                given.len() > 0,
                values@.len() < given.len(),
            decreases values.len(),
        {
            let ghost before = list@;
            let ghost n = values@.len() as int;
            let v = values.pop().unwrap();
            list = Node { value: v, next: Some(Box::new(list)) };
            proof {
                assert(v == given[n - 1]);
                assert(values@ =~= given.take(n - 1));
                Node::lemma_unfold(list);
                assert(list@ =~= given.skip(values@.len() as int));
            }
        }
        proof {
            assert(given.skip(0) =~= given);
        }
        list
    }

    /// Appends `values`, in their order, after the last node of this list;
    /// there must be at least one value.
    pub fn extend(&mut self, values: Vec<T>)
        requires
            values.len() > 0,
        ensures
            final(self)@ == old(self)@ + values@,
    {
        let tail = Node::from_iter(values);
        let ghost whole = old(self)@;
        let ghost mut k: int = 0;
        let mut cur: &mut Node<T> = &mut *self;
        loop
            invariant
                0 <= k < whole.len(),
                cur@ == whole.skip(k),
                after_borrow(*self)@ == whole.take(k) + final(cur)@,
            ensures
                cur@ == whole.skip(k),
                after_borrow(*self)@ == whole.take(k) + final(cur)@,
                cur.next is None,
            decreases whole.len() - k,
        {
            proof {
                Node::lemma_unfold(*cur);
            }
            match cur.next {
                Some(ref mut last_node) => {
                    proof {
                        assert(whole.skip(k + 1) =~= whole.skip(k).drop_first());
                        k = k + 1;
                    }
                    cur = &mut **last_node;
                    proof {
                        assert(whole.take(k) =~= whole.take(k - 1).push(whole[k - 1]));
                    }
                },
                None => break,
            }
        }
        proof {
            Node::lemma_unfold(*cur);
        }
        cur.next = Some(Box::new(tail));
        proof {
            Node::lemma_unfold(*cur);
            assert(whole.take(k) + cur@ =~= whole + values@);
        }
    }
}

impl<T: Clone> Node<T> {
    /// Moves the list into a walk that hands out its values one by one.
    pub fn into_iter(self) -> (iter: node_owner_iter::NodeOwnerIter<T>)
        ensures
            iter@ == self@,
    {
        node_owner_iter::NodeOwnerIter { current: Some(self) }
    }
}

impl<T: Clone> Clone for Node<T> {
    /// A list of the same length whose values are clones of this list's
    /// values, built front to back.
    fn clone(&self) -> (copy: Self)
        ensures
            copy@.len() == self@.len(),
            forall|i: int| 0 <= i < self@.len() ==> cloned(#[trigger] self@[i], copy@[i]),
    {
        proof {
            Node::lemma_unfold(*self);
        }
        let first = self.value.clone();
        let mut head = Node::new(first);
        let mut it = self.iter_forward();
        let _ = it.next();
        let ghost mut done: Seq<T> = seq![first];
        let mut cursor: &mut Node<T> = &mut *head;
        loop
            invariant
                1 <= done.len() <= self@.len(),
                it@ == self@.skip(done.len() as int),
                forall|i: int| 0 <= i < done.len() ==> cloned(#[trigger] self@[i], done[i]),
                cursor@ == seq![done.last()],
                after_borrow(head)@ == done.drop_last() + final(cursor)@,
            ensures
                done.len() == self@.len(),
                cursor@ == seq![done.last()],
                after_borrow(head)@ == done.drop_last() + final(cursor)@,
                forall|i: int| 0 <= i < done.len() ==> cloned(#[trigger] self@[i], done[i]),
            decreases it@.len(),
        {
            let ghost before = it@;
            match it.next() {
                None => {
                    assert(done.len() == self@.len());
                    break;
                },
                Some(v) => {
                    let c = v.clone();
                    proof {
                        assert(self@[done.len() as int] == before[0]);
                    }
                    cursor = cursor.insert(c);
                    proof {
                        done = done.push(c);
                        assert(it@ =~= self@.skip(done.len() as int));
                    }
                },
            }
        }
        proof {
            assert(done.drop_last() + seq![done.last()] =~= done);
        }
        assert(head@ == done);
        *head
    }
}

/// The texts of `parts` joined by commas.
pub open spec fn comma_joined(parts: Seq<Seq<char>>) -> Seq<char>
    decreases parts.len(),
{
    if parts.len() == 0 {
        Seq::empty()
    } else if parts.len() == 1 {
        parts[0]
    } else {
        comma_joined(parts.drop_last()) + seq![','] + parts.last()
    }
}

/// Where the `i`-th of `parts` starts when the parts are written one after
/// another, each followed by one separator: the lengths of the parts
/// before it, plus one per part.
pub open spec fn part_offset(parts: Seq<Seq<char>>, i: int) -> int
    decreases i,
{
    if i <= 0 {
        0
    } else {
        part_offset(parts, i - 1) + parts[i - 1].len() + 1
    }
}

/// The offsets of the first parts do not depend on the parts after them.
proof fn lemma_part_offset_prefix(parts: Seq<Seq<char>>, i: int)
    requires
        0 <= i < parts.len(),
    ensures
        part_offset(parts, i) == part_offset(parts.drop_last(), i),
    decreases i,
{
    if i > 0 {
        lemma_part_offset_prefix(parts, i - 1);
    }
}

/// The comma-joined text is as long as the parts together, plus one comma
/// between each two of them.
proof fn lemma_comma_joined_len(parts: Seq<Seq<char>>)
    requires
        parts.len() >= 1,
    ensures
        comma_joined(parts).len() == part_offset(parts, parts.len() as int) - 1,
    decreases parts.len(),
{
    let n = parts.len() as int;
    assert(part_offset(parts, n) == part_offset(parts, n - 1) + parts[n - 1].len() + 1);
    if n > 1 {
        let prefix = parts.drop_last();
        lemma_comma_joined_len(prefix);
        lemma_part_offset_prefix(parts, n - 1);
        assert(comma_joined(parts) == comma_joined(prefix) + seq![','] + parts.last());
    } else {
        assert(part_offset(parts, 0) == 0);
    }
}

/// The `i`-th part stands whole in the comma-joined text, at its offset.
proof fn lemma_comma_joined_part(parts: Seq<Seq<char>>, i: int)
    requires
        0 <= i < parts.len(),
    ensures
        comma_joined(parts).subrange(part_offset(parts, i), part_offset(parts, i) + parts[i].len())
            == parts[i],
    decreases parts.len(),
{
    let n = parts.len() as int;
    let joined = comma_joined(parts);
    if n == 1 {
        assert(joined.subrange(0, parts[0].len() as int) =~= parts[0]);
    } else {
        let prefix = parts.drop_last();
        let head = comma_joined(prefix);
        lemma_comma_joined_len(prefix);
        lemma_part_offset_prefix(parts, n - 1);
        assert(joined == head + seq![','] + parts.last());
        if i < n - 1 {
            lemma_comma_joined_part(prefix, i);
            lemma_part_offset_prefix(parts, i);
            lemma_part_offset_monotone(prefix, i, n - 1);
            if i > 0 {
                lemma_part_offset_monotone(prefix, 0, i);
            }
            assert(part_offset(prefix, 0) == 0);
            assert(part_offset(parts, i) == part_offset(prefix, i));
            assert(part_offset(prefix, i) + prefix[i].len() <= head.len());
            assert(joined.subrange(part_offset(parts, i), part_offset(parts, i) + parts[i].len())
                =~= head.subrange(part_offset(prefix, i), part_offset(prefix, i) + prefix[i].len()));
        } else {
            assert(joined.subrange(part_offset(parts, i), part_offset(parts, i) + parts[i].len())
                =~= parts.last());
        }
    }
}

/// Offsets grow with the index: a part ends before the next one starts.
proof fn lemma_part_offset_monotone(parts: Seq<Seq<char>>, i: int, j: int)
    requires
        0 <= i < j <= parts.len(),
    ensures
        part_offset(parts, i) + parts[i].len() + 1 <= part_offset(parts, j),
    decreases j - i,
{
    if i + 1 < j {
        lemma_part_offset_monotone(parts, i + 1, j);
        assert(part_offset(parts, i + 1) == part_offset(parts, i) + parts[i].len() + 1);
    }
}

/// A comma stands right before every part but the first.
proof fn lemma_comma_joined_comma(parts: Seq<Seq<char>>, i: int)
    requires
        1 <= i < parts.len(),
    ensures
        comma_joined(parts)[part_offset(parts, i) - 1] == ',',
    decreases parts.len(),
{
    let n = parts.len() as int;
    let prefix = parts.drop_last();
    let head = comma_joined(prefix);
    lemma_comma_joined_len(prefix);
    lemma_part_offset_prefix(parts, n - 1);
    let joined = comma_joined(parts);
    assert(joined == head + seq![','] + parts.last());
    assert(part_offset(parts, n - 1) == part_offset(prefix, n - 1));
    if i < n - 1 {
        lemma_comma_joined_comma(prefix, i);
        lemma_part_offset_prefix(parts, i);
        lemma_part_offset_monotone(prefix, i, n - 1);
        lemma_part_offset_monotone(prefix, 0, i);
        assert(part_offset(prefix, 0) == 0);
        let k = part_offset(prefix, i) - 1;
        assert(0 <= k < head.len());
        assert(joined[k] == head[k]);
    } else {
        assert(joined[head.len() as int] == ',');
    }
}

/// The layout of the comma-joined text: every part appears whole, in
/// order, at its offset; a comma stands right before every part but the
/// first; and the text holds nothing else, so its length is the total
/// length of the parts plus one comma fewer than there are parts.
pub proof fn law_comma_joined_layout(parts: Seq<Seq<char>>)
    requires
        parts.len() >= 1,
    ensures
        comma_joined(parts).len() == part_offset(parts, parts.len() as int) - 1,
        forall|i: int|
            0 <= i < parts.len() ==> comma_joined(parts).subrange(
                part_offset(parts, i),
                part_offset(parts, i) + parts[i].len(),
            ) == #[trigger] parts[i],
        forall|i: int|
            1 <= i < parts.len() ==> comma_joined(parts)[#[trigger] part_offset(parts, i) - 1]
                == ',',
{
    lemma_comma_joined_len(parts);
    assert forall|i: int| 0 <= i < parts.len() implies comma_joined(parts).subrange(
        part_offset(parts, i),
        part_offset(parts, i) + parts[i].len(),
    ) == #[trigger] parts[i] by {
        lemma_comma_joined_part(parts, i);
    }
    assert forall|i: int| 1 <= i < parts.len() implies comma_joined(parts)[#[trigger] part_offset(
        parts,
        i,
    ) - 1] == ',' by {
        lemma_comma_joined_comma(parts, i);
    }
}

impl<T: core::fmt::Display> Node<T> {
    /// The values of the list, each as its `Display` text, separated by
    /// commas.
    pub fn to_string(&self) -> (text: String)
        ensures
            exists|parts: Seq<String>|
                {
                    &&& parts.len() == self@.len()
                    &&& forall|i: int|
                        0 <= i < parts.len() ==> vstd::string::to_string_from_display_ensures::<T>(
                            &self@[i],
                            #[trigger] parts[i],
                        )
                    &&& text@ == comma_joined(parts.map_values(|p: String| p@))
                },
    {
        proof {
            Node::lemma_unfold(*self);
        }
        let mut it = self.iter_forward();
        let first = it.next().unwrap();
        let s0 = first.to_string();
        let mut text = String::new();
        text.append(s0.as_str());
        let ghost mut parts: Seq<String> = seq![s0];
        proof {
            assert(parts.map_values(|p: String| p@) =~= seq![s0@]);
            assert(text@ =~= s0@);
        }
        loop
            invariant
                1 <= parts.len() <= self@.len(),
                it@ == self@.skip(parts.len() as int),
                forall|i: int|
                    0 <= i < parts.len() ==> vstd::string::to_string_from_display_ensures::<T>(
                        &self@[i],
                        #[trigger] parts[i],
                    ),
                text@ == comma_joined(parts.map_values(|p: String| p@)),
            ensures
                parts.len() == self@.len(),
                forall|i: int|
                    0 <= i < parts.len() ==> vstd::string::to_string_from_display_ensures::<T>(
                        &self@[i],
                        #[trigger] parts[i],
                    ),
                text@ == comma_joined(parts.map_values(|p: String| p@)),
            decreases it@.len(),
        {
            let ghost before = it@;
            match it.next() {
                None => break,
                Some(v) => {
                    let piece = v.to_string();
                    let ghost old_text = text@;
                    text.append(",");
                    text.append(piece.as_str());
                    proof {
                        reveal_strlit(",");
                        assert(self@[parts.len() as int] == before[0]);
                        let old_parts = parts;
                        parts = parts.push(piece);
                        assert(parts.map_values(|p: String| p@).drop_last() =~= old_parts.map_values(
                            |p: String| p@,
                        ));
                        assert(it@ =~= self@.skip(parts.len() as int));
                        assert(text@ =~= old_text + seq![','] + piece@);
                    }
                },
            }
        }
        text
    }
}

/// Cloning a list whose values clone exactly gives a list with the same
/// values: when every clone of a `T` equals its source, a list that is a
/// clone of `list` (same length, each value a clone of the value at the same
/// place) has the same values as `list`.
pub proof fn law_clone_of_exact_values<T: Clone>(list: Seq<T>, copy: Seq<T>)
    requires
        forall|a: T, b: T| #[trigger] cloned(a, b) ==> a == b,
        copy.len() == list.len(),
        forall|i: int| 0 <= i < list.len() ==> cloned(#[trigger] list[i], copy[i]),
    ensures
        copy == list,
{
    assert forall|i: int| 0 <= i < list.len() implies copy[i] == list[i] by {
        assert(cloned(list[i], copy[i]));
    }
    assert(copy =~= list);
}

impl<T> Drop for Node<T> {
    fn drop(&mut self)
        opens_invariants none
        no_unwind
    {
        let mut rest: Option<Box<Node<T>>> = None;
        std::mem::swap(&mut rest, &mut self.next);
        loop
            decreases chain_len(rest),
        {
            match rest {
                None => break,
                Some(mut node) => {
                    let ghost whole = node@;
                    let mut after: Option<Box<Node<T>>> = None;
                    std::mem::swap(&mut after, &mut node.next);
                    proof { assert(chain_values(after) =~= whole.drop_first()); }
                    rest = after;
                },
            }
        }
    }
}

impl<T> core::ops::Deref for Node<T> {
    type Target = T;

    /// The value held by this node.
    fn deref(&self) -> (value: &T)
        ensures
            *value == self@[0],
    {
        &self.value
    }
}

impl<T> core::ops::DerefMut for Node<T> {
    /// The value held by this node, for writing.
    fn deref_mut(&mut self) -> (value: &mut T)
        ensures
            *value == old(self)@[0],
            final(self)@ == old(self)@.update(0, *final(value)),
    {
        &mut self.value
    }
}

} // verus!
