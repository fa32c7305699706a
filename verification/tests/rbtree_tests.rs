use basealloc::rbtree::{Color, HasNode, RBNode, RBTree};

struct Keyed {
    key: u32,
    node: RBNode,
}

impl HasNode for Keyed {
    fn spec_node(&self) -> RBNode {
        self.node
    }

    fn with_node(&self, node: RBNode) -> Self {
        Keyed { key: self.key, node }
    }

    fn node(&self) -> &RBNode {
        &self.node
    }

    fn node_mut(&mut self) -> &mut RBNode {
        &mut self.node
    }
}

#[test]
fn default_node_is_red_and_detached() {
    let node = RBNode::default();
    assert_eq!(*node.parent(), None);
    assert_eq!(*node.left(), None);
    assert_eq!(*node.right(), None);
    assert_eq!(*node.color(), Color::Red);
}

#[test]
fn node_setters_change_one_field_each() {
    let mut node = RBNode::default();
    node.set_parent(Some(3));
    assert_eq!(node, RBNode { parent: Some(3), left: None, right: None, color: Color::Red });
    node.set_left(Some(5));
    assert_eq!(node, RBNode { parent: Some(3), left: Some(5), right: None, color: Color::Red });
    node.set_right(Some(7));
    assert_eq!(node, RBNode { parent: Some(3), left: Some(5), right: Some(7), color: Color::Red });
    node.set_color(Color::Black);
    assert_eq!(node, RBNode { parent: Some(3), left: Some(5), right: Some(7), color: Color::Black });
}

#[test]
fn embedded_node_is_reached_through_the_value() {
    let mut item = Keyed { key: 9, node: RBNode::default() };
    item.node_mut().set_color(Color::Black);
    item.node_mut().set_left(Some(1));
    assert_eq!(*item.node().color(), Color::Black);
    assert_eq!(*item.node().left(), Some(1));
    assert_eq!(item.key, 9);
}

#[test]
fn new_tree_takes_its_order() {
    let by_key = |a: &Keyed, b: &Keyed| a.key.cmp(&b.key);
    let _tree = RBTree::new(4096, by_key);
}
