use byte_engine::element::{ElementHandle, Id};
use byte_engine::query::Fetcher;

struct TestElement {
    id: Id,
    name: &'static str,
}

impl ElementHandle for TestElement {
    /// The identity the library's contracts speak of; outside verification it is an ordinary method.
    fn spec_id(&self) -> Id {
        self.id
    }

    fn id(&self) -> Id {
        self.id
    }
}

fn id(value: u32) -> Id {
    assert!(value != 0, "non-zero test element identity");
    value as Id
}

#[test]
fn fetcher_resolves_elements_and_navigates_nested_relations() {
    let elements = [
        TestElement { id: id(1), name: "root" },
        TestElement { id: id(2), name: "left" },
        TestElement { id: id(3), name: "right" },
        TestElement { id: id(4), name: "leaf" },
    ];
    let relations = [(id(1), id(3)), (id(1), id(2)), (id(2), id(4))];
    let fetcher = Fetcher { elements: &elements, relation_map: &relations };

    assert_eq!(fetcher.get(id(1)).expect("root").element().name, "root");
    assert!(fetcher.get(id(1)).expect("root").parent().is_none());
    assert!(fetcher.get(id(99)).is_none());

    let root = fetcher.get(id(1)).expect("root");
    assert_eq!(root.children().ids(), [id(3), id(2)]);
    assert_eq!(
        root.children().elements().into_iter().map(|element| element.element().name).collect::<Vec<_>>(),
        ["right", "left"]
    );

    let leaf_parent = fetcher.get(id(4)).expect("leaf").parent().expect("leaf parent");
    assert_eq!(leaf_parent.id(), id(2));
    assert_eq!(leaf_parent.element().expect("resolved parent").element().name, "left");
}

#[test]
fn dangling_relations_preserve_ids_without_panicking_during_element_lookup() {
    let elements = [TestElement { id: id(1), name: "root" }, TestElement { id: id(5), name: "orphan" }];
    let relations = [(id(1), id(9)), (id(8), id(5))];
    let fetcher = Fetcher { elements: &elements, relation_map: &relations };

    let children = fetcher.get(id(1)).expect("root").children();
    assert_eq!(children.ids(), [id(9)]);
    assert_eq!(children.elements().len(), 0);

    let parent = fetcher.get(id(5)).expect("orphan").parent().expect("recorded parent");
    assert_eq!(parent.id(), id(8));
    assert!(parent.element().is_none());
}

#[test]
fn a_leaf_has_no_children() {
    let elements = [TestElement { id: id(1), name: "root" }, TestElement { id: id(2), name: "leaf" }];
    let relations = [(id(1), id(2))];
    let fetcher = Fetcher { elements: &elements, relation_map: &relations };

    let leaf = fetcher.get(id(2)).expect("leaf");
    assert!(leaf.children().ids().is_empty());
    assert!(leaf.children().elements().is_empty());
    assert_eq!(leaf.parent().expect("parent").id(), id(1));
}
