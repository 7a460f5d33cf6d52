use rust_playground::linked_list::Node;

fn values_of(node: &Node<i32>) -> Vec<i32> {
    let mut values = Vec::new();
    let mut iter = node.iter_forward();
    while let Some(value) = iter.next() {
        values.push(*value);
    }
    values
}

#[test]
fn insert_goes_right_after_the_node() {
    let mut head = Node::new(1);
    head.insert(3);
    head.insert(2);
    assert_eq!(values_of(&head), vec![1, 2, 3]);
    assert_eq!(head.to_string(), "1,2,3");
}

#[test]
fn single_node_text_has_no_comma() {
    let node = Node::new(7);
    assert_eq!(node.to_string(), "7");
}

#[test]
fn from_iter_keeps_order() {
    let list = Node::from_iter(vec![5, 6, 7]);
    assert_eq!(values_of(&list), vec![5, 6, 7]);
}

#[test]
fn extend_appends_after_the_last_node() {
    let mut list = Node::new(1);
    list.insert(2);
    list.extend(vec![3, 4]);
    list.extend(vec![5]);
    assert_eq!(values_of(&list), vec![1, 2, 3, 4, 5]);
}

#[test]
fn owner_iter_hands_out_every_value() {
    let list = Node::from_iter(vec![String::from("a"), String::from("b"), String::from("c")]);
    let mut iter = list.into_iter();
    let mut values = Vec::new();
    while let Some(value) = iter.next() {
        values.push(value);
    }
    assert_eq!(values, vec!["a", "b", "c"]);
    assert!(iter.next().is_none());
}

#[test]
fn clone_is_independent() {
    let mut list = Node::from_iter(vec![1, 2, 3]);
    let copy = list.clone();
    *list = 10;
    assert_eq!(values_of(&list), vec![10, 2, 3]);
    assert_eq!(values_of(&copy), vec![1, 2, 3]);
}

#[test]
fn forward_iter_ends_with_none() {
    let list = Node::new(1);
    let mut iter = list.iter_forward();
    assert_eq!(iter.next(), Some(&1));
    assert_eq!(iter.next(), None);
    assert_eq!(iter.next(), None);
}
