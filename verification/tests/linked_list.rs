use rust_playground::linked_list::Node;

#[test]
fn trivial() {
    let mut node = Node::new(1);
    node.insert(2).insert(3).insert(4);
    println!("{}", node.to_string());
    assert_eq!(node.to_string(), "1,2,3,4");
}

#[test]
fn easy() {
    let mut node = Node::new(42);
    assert_eq!(**node, 42);
    **node = 13;
    assert_eq!(**node, 13);
}

#[test]
fn normal() {
    let mut node1 = Node::new(1);
    let node2 = node1.insert(3);
    node2.insert(4);
    node1.insert(2);
    let mut values = Vec::new();
    let mut iter = node1.iter_forward();
    while let Some(value) = iter.next() {
        values.push(*value);
    }
    assert_eq!(values, vec![1, 2, 3, 4]);
}

#[test]
fn hard() {
    let mut node1 = Node::new(1);
    node1.insert(2).insert(3).insert(4);
    let node2 = node1.clone();
    let mut first = Vec::new();
    let mut iter = node1.iter_forward();
    while let Some(value) = iter.next() {
        first.push(value);
    }
    let mut second = Vec::new();
    let mut iter = node2.iter_forward();
    while let Some(value) = iter.next() {
        second.push(value);
    }
    assert_eq!(first, second);
}

#[test]
fn nightmare() {
    let mut node = Node::new(1);

    for index in 0..10_000_000 {
        node.insert(index);
    }
}

#[test]
fn ultra_nightmare() {}
