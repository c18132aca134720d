use memalloc::list::{List, Node};

// The list takes the place of each node from its caller. These tests stand
// in for the allocator and hand out addresses of their own.
const A1: usize = 0x1000;
const A2: usize = 0x2000;
const A3: usize = 0x3000;
const A4: usize = 0x4000;

#[test]
fn new_list_is_empty() {
    let list: List<i32> = List::new();
    assert!(list.is_empty());
    assert_eq!(list.len(), 0);
    assert!(list.first().is_none());
    assert!(list.last().is_none());
}

#[test]
fn append_single_element() {
    let mut list = List::<i32>::new();

    list.append(42, A1);

    assert_eq!(list.len(), 1);
    assert!(!list.is_empty());

    assert_eq!(list.first(), list.last());

    assert_eq!(list.node(list.first().unwrap()).unwrap().data, 42);
}

#[test]
fn append_multiple_elements_and_iter() {
    let mut list = List::<i32>::new();

    let nodes_data = vec![1, 2, 3];
    let places = vec![A1, A2, A3];
    let mut node_ptrs = Vec::new();

    for (&data, &place) in nodes_data.iter().zip(places.iter()) {
        let node = list.append(data, place);
        node_ptrs.push(node);
    }

    assert_eq!(list.len(), 3);

    let mut collected: Vec<&i32> = Vec::new();
    let mut walk = list.iter();
    while let Some(item) = walk.next() {
        collected.push(item);
    }
    assert_eq!(collected, vec![&1, &2, &3]);

    let node1 = list.node(node_ptrs[0]).unwrap();
    let node2 = list.node(node_ptrs[1]).unwrap();
    let node3 = list.node(node_ptrs[2]).unwrap();

    // 1 -> 2
    assert_eq!(node1.next, Some(node_ptrs[1]));
    assert_eq!(node1.prev, None);

    // 1 <- 2 -> 3
    assert_eq!(node2.prev, Some(node_ptrs[0]));
    assert_eq!(node2.next, Some(node_ptrs[2]));

    // 2 <- 3
    assert_eq!(node3.prev, Some(node_ptrs[1]));
    assert_eq!(node3.next, None);
}

#[test]
fn remove_head() {
    let mut list = List::<i32>::new();
    let n1 = list.append(10, A1);
    let n2 = list.append(20, A2);

    assert_eq!(list.len(), 2);

    list.remove(n1);

    assert_eq!(list.len(), 1);
    assert_eq!(list.first(), Some(n2));
    assert_eq!(list.last(), Some(n2));
    assert_eq!(list.node(n2).unwrap().prev, None);
}

#[test]
fn remove_tail() {
    let mut list = List::<i32>::new();
    let n1 = list.append(10, A1);
    let n2 = list.append(20, A2);

    list.remove(n2);

    assert_eq!(list.len(), 1);
    assert_eq!(list.last(), Some(n1));
    assert_eq!(list.first(), Some(n1));
    assert_eq!(list.node(n1).unwrap().next, None);
}

#[test]
fn remove_middle() {
    let mut list = List::<i32>::new();
    let n1 = list.append(10, A1);
    let n2 = list.append(20, A2);
    let n3 = list.append(30, A3);

    list.remove(n2);

    assert_eq!(list.len(), 2);

    assert_eq!(list.node(n1).unwrap().next, Some(n3));
    assert_eq!(list.node(n3).unwrap().prev, Some(n1));
}

#[test]
fn test_insert_after() {
    let mut list = List::<i32>::new();

    let n1 = list.append(10, A1);

    let n2 = list.insert_after(n1, 20, A2);

    assert_eq!(list.len(), 2);
    assert_eq!(list.last(), Some(n2));
    assert_eq!(list.node(n1).unwrap().next, Some(n2));
    assert_eq!(list.node(n2).unwrap().prev, Some(n1));

    let n1_5 = list.insert_after(n1, 15, A3);

    assert_eq!(list.len(), 3);

    let mut vec: Vec<&i32> = Vec::new();
    let mut walk = list.iter();
    while let Some(item) = walk.next() {
        vec.push(item);
    }
    assert_eq!(vec, vec![&10, &15, &20]);

    // 10 -> 15
    assert_eq!(list.node(n1).unwrap().next, Some(n1_5));
    // 15 -> 20
    assert_eq!(list.node(n1_5).unwrap().next, Some(n2));
    // 15 <- 20
    assert_eq!(list.node(n2).unwrap().prev, Some(n1_5));
}

#[test]
fn remove_last_remaining_node() {
    let mut list = List::<i32>::new();
    let n1 = list.append(99, A1);

    list.remove(n1);

    assert!(list.is_empty());
    assert!(list.first().is_none());
    assert!(list.last().is_none());
}

#[test]
fn new_node_is_unlinked() {
    let node = Node::new(7);
    assert_eq!(node.next, None);
    assert_eq!(node.prev, None);
    assert_eq!(node.data, 7);
}

#[test]
fn append_returns_the_given_address() {
    let mut list = List::<u8>::new();
    assert_eq!(list.append(1, A4), A4);
    assert_eq!(list.insert_after(A4, 2, A2), A2);
    assert_eq!(list.first(), Some(A4));
    assert_eq!(list.last(), Some(A2));
}

#[test]
fn position_and_lookup_by_address() {
    let mut list = List::<i32>::new();
    list.append(10, A1);
    list.append(20, A2);
    list.append(30, A3);
    assert_eq!(list.position(A1), Some(0));
    assert_eq!(list.position(A3), Some(2));
    assert_eq!(list.position(A4), None);
    assert!(list.node(A4).is_none());
    assert_eq!(list.addr_at(1), A2);
    assert_eq!(list.node_at(1).data, 20);
    assert_eq!(list.node_at(1).prev, Some(A1));
    assert_eq!(list.node_at(1).next, Some(A3));
}

#[test]
fn data_mut_changes_one_element() {
    let mut list = List::<i32>::new();
    list.append(10, A1);
    list.append(20, A2);
    *list.data_mut(1) = 25;
    assert_eq!(list.node(A1).unwrap().data, 10);
    assert_eq!(list.node(A2).unwrap().data, 25);
    assert_eq!(list.node(A2).unwrap().prev, Some(A1));
}

#[test]
fn remove_at_hands_the_element_back() {
    let mut list = List::<i32>::new();
    list.append(10, A1);
    list.append(20, A2);
    list.append(30, A3);
    assert_eq!(list.remove_at(1), 20);
    assert_eq!(list.len(), 2);
    assert_eq!(list.node(A1).unwrap().next, Some(A3));
    assert_eq!(list.node(A3).unwrap().prev, Some(A1));
    assert_eq!(list.position(A2), None);
}

#[test]
fn iter_counts_down() {
    let mut list = List::<i32>::new();
    list.append(10, A1);
    list.append(20, A2);
    let mut walk = list.iter();
    assert_eq!(walk.size_hint(), (2, Some(2)));
    assert_eq!(walk.next(), Some(&10));
    assert_eq!(walk.size_hint(), (1, Some(1)));
    assert_eq!(walk.next(), Some(&20));
    assert_eq!(walk.size_hint(), (0, Some(0)));
    assert_eq!(walk.next(), None);
    assert_eq!(walk.next(), None);
}

#[test]
fn an_address_can_be_used_again_after_removal() {
    let mut list = List::<i32>::new();
    list.append(1, A1);
    list.append(2, A2);
    list.remove(A1);
    list.append(3, A1);
    assert_eq!(list.first(), Some(A2));
    assert_eq!(list.last(), Some(A1));
    assert_eq!(list.node(A1).unwrap().data, 3);
    assert_eq!(list.node(A1).unwrap().prev, Some(A2));
}
