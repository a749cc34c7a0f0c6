use wasm_split_cli::nodes::{DepNode, NodeSet};

#[test]
fn node_set_insert_and_remove() {
    let mut set = NodeSet::new(3, 2);
    assert!(!set.contains(DepNode::Function(1)));
    set.insert(DepNode::Function(1));
    set.insert(DepNode::DataSymbol(0));
    assert!(set.contains(DepNode::Function(1)));
    assert!(set.contains(DepNode::DataSymbol(0)));
    assert!(!set.contains(DepNode::Function(7)));
    set.remove(DepNode::Function(1));
    assert!(!set.contains(DepNode::Function(1)));
}

#[test]
fn node_set_lists_its_members_in_order() {
    let mut set = NodeSet::new(5, 3);
    for node in [DepNode::Function(4), DepNode::DataSymbol(2), DepNode::Function(1), DepNode::DataSymbol(0)] {
        set.insert(node);
    }
    assert_eq!(set.functions(), vec![1, 4]);
    assert_eq!(set.data_symbols(), vec![0, 2]);
    assert_eq!(set.func_count(), 5);
    assert_eq!(set.data_count(), 3);
    assert!(set.has_room_for(DepNode::Function(4)));
    assert!(!set.has_room_for(DepNode::Function(5)));
    assert!(!set.has_room_for(DepNode::DataSymbol(3)));
    set.remove(DepNode::DataSymbol(7));
    assert_eq!(set.data_symbols(), vec![0, 2]);
}
