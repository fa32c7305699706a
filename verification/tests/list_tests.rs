use basealloc::list::{HasLink, Link, List, ListDrainer, ListIter};

#[derive(Debug)]
struct TestNode {
    value: i32,
    link: Link,
}

impl TestNode {
    fn new(value: i32) -> Self {
        Self { value, link: Link::default() }
    }
}

impl HasLink for TestNode {
    fn spec_link(&self) -> Link {
        self.link
    }

    fn with_link(&self, link: Link) -> Self {
        Self { value: self.value, link }
    }

    fn lemma_with_link(&self, _a: Link, _b: Link) {}

    fn link(&self) -> &Link {
        &self.link
    }

    fn link_mut(&mut self) -> &mut Link {
        &mut self.link
    }
}

#[test]
fn test_insert_before() {
    let mut store = vec![TestNode::new(1), TestNode::new(2)];

    List::insert_before(&mut store, 1, 0);

    assert_eq!(store[1].link().next(), Some(0));
    assert_eq!(store[0].link().prev(), Some(1));
}

#[test]
fn test_insert_after() {
    let mut store = vec![TestNode::new(1), TestNode::new(2)];

    List::insert_after(&mut store, 1, 0);

    assert_eq!(store[0].link().next(), Some(1));
    assert_eq!(store[1].link().prev(), Some(0));
}

#[test]
fn test_remove() {
    let mut store = vec![TestNode::new(1), TestNode::new(2), TestNode::new(3)];

    List::insert_after(&mut store, 1, 0);
    List::insert_after(&mut store, 2, 1);
    List::remove(&mut store, 1);

    assert_eq!(store[0].link().next(), Some(2));
    assert_eq!(store[2].link().prev(), Some(0));
    assert!(store[1].link().next().is_none());
    assert!(store[1].link().prev().is_none());
}

#[test]
fn test_iter() {
    let mut store = vec![TestNode::new(1), TestNode::new(2), TestNode::new(3)];

    List::insert_after(&mut store, 1, 0);
    List::insert_after(&mut store, 2, 1);

    let mut iter = ListIter::new(Some(0));
    let mut values: Vec<i32> = Vec::new();
    while let Some(n) = iter.next(&store) {
        values.push(store[n].value);
    }

    assert_eq!(values, vec![1, 2, 3]);
}

#[test]
fn test_drainer() {
    let mut store = vec![TestNode::new(1), TestNode::new(2), TestNode::new(3)];

    List::insert_after(&mut store, 1, 0);
    List::insert_after(&mut store, 2, 1);

    let mut drainer: ListDrainer = List::drain(0);
    let mut values: Vec<i32> = Vec::new();
    while let Some(n) = drainer.next(&mut store) {
        values.push(store[n].value);
    }

    assert_eq!(values, vec![1, 2, 3]);

    for node in &store {
        assert!(node.link().next().is_none());
        assert!(node.link().prev().is_none());
    }
}

#[test]
fn insert_between_neighbours() {
    let mut store = vec![TestNode::new(1), TestNode::new(2), TestNode::new(3)];
    List::insert_after(&mut store, 1, 0);
    // 0 <-> 1, now put 2 in front of 1
    List::insert_before(&mut store, 2, 1);
    assert_eq!(*store[0].link(), Link { next: Some(2), prev: None });
    assert_eq!(*store[2].link(), Link { next: Some(1), prev: Some(0) });
    assert_eq!(*store[1].link(), Link { next: None, prev: Some(2) });
    let mut link = Link::default();
    link.set_next(Some(4));
    link.set_prev(Some(5));
    assert_eq!(link, Link { next: Some(4), prev: Some(5) });
}
