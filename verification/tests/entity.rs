use folder_plot::entity::{find_ref, resolve_references, EntityNode};
use folder_plot::structure::{FileType, Item};

#[derive(Debug, Clone, Copy, PartialEq)]
struct Body {
    x: f64,
    y: f64,
    radius: f64,
}

fn body(x: f64, y: f64) -> Body {
    Body { x, y, radius: 1.0 }
}

fn file(name: &str, refs: &[&str]) -> Item {
    Item::File {
        name: name.to_string(),
        full_name: name.to_string(),
        size: 10,
        class: FileType::Code,
        refs: refs.iter().map(|r| r.to_string()).collect(),
    }
}

#[test]
fn a_file_is_found_by_its_name() {
    let a = file("a.rs", &[]);
    let leaf = EntityNode::File(body(1.0, 2.0), &a);
    assert_eq!(find_ref("a.rs", &leaf), Some(&body(1.0, 2.0)));
    assert_eq!(find_ref("b.rs", &leaf), None);
    assert_eq!(find_ref("a.r", &leaf), None);
    assert_eq!(find_ref("", &leaf), None);
}

#[test]
fn a_file_is_found_through_folders() {
    let a = file("a.rs", &[]);
    let b = file("b.rs", &[]);
    let c = file("c.rs", &[]);
    let tree = EntityNode::Folder(
        body(0.0, 0.0),
        "root".to_string(),
        vec![
            EntityNode::File(body(1.0, 1.0), &a),
            EntityNode::Folder(
                body(2.0, 2.0),
                "b.rs".to_string(),
                vec![EntityNode::File(body(3.0, 3.0), &b), EntityNode::File(body(4.0, 4.0), &c)],
            ),
        ],
    );
    assert_eq!(find_ref("a.rs", &tree), Some(&body(1.0, 1.0)));
    assert_eq!(find_ref("b.rs", &tree), Some(&body(3.0, 3.0)));
    assert_eq!(find_ref("c.rs", &tree), Some(&body(4.0, 4.0)));
    assert_eq!(find_ref("root", &tree), None);
}

#[test]
fn the_first_file_of_a_name_is_found() {
    let first = file("mod.rs", &[]);
    let second = file("mod.rs", &[]);
    let other = file("x.rs", &[]);
    let tree = EntityNode::Folder(
        body(0.0, 0.0),
        "root".to_string(),
        vec![
            EntityNode::Folder(
                body(0.0, 0.0),
                "a".to_string(),
                vec![EntityNode::File(body(9.0, 9.0), &other), EntityNode::File(body(1.0, 0.0), &first)],
            ),
            EntityNode::File(body(2.0, 0.0), &second),
        ],
    );
    assert_eq!(find_ref("mod.rs", &tree), Some(&body(1.0, 0.0)));
}

#[test]
fn resolving_twice_gives_the_same() {
    let a = file("a.rs", &[]);
    let b = file("b.rs", &[]);
    let tree = EntityNode::Folder(
        body(0.0, 0.0),
        "root".to_string(),
        vec![EntityNode::File(body(1.0, 1.0), &a), EntityNode::File(body(2.0, 2.0), &b)],
    );
    assert_eq!(find_ref("b.rs", &tree), find_ref("b.rs", &tree));
    assert_eq!(find_ref("b.rs", &tree), Some(&body(2.0, 2.0)));
    assert_eq!(find_ref("nowhere.rs", &tree), find_ref("nowhere.rs", &tree));
    assert_eq!(find_ref("nowhere.rs", &tree), None);
}

#[test]
fn a_reference_to_no_file_gives_no_connector() {
    let a = file("a.rs", &["missing.rs"]);
    let b = file("b.rs", &[]);
    let leaf = EntityNode::File(body(1.0, 1.0), &a);
    let tree = EntityNode::Folder(
        body(0.0, 0.0),
        "root".to_string(),
        vec![EntityNode::File(body(1.0, 1.0), &a), EntityNode::File(body(2.0, 2.0), &b)],
    );
    assert_eq!(find_ref("missing.rs", &tree), None);
    assert_eq!(resolve_references(&leaf, &tree), Vec::<&Body>::new());
}

#[test]
fn references_resolve_in_their_order() {
    let a = file("a.rs", &["c.rs", "missing.rs", "b.rs", "a.rs", "b.rs"]);
    let b = file("b.rs", &[]);
    let c = file("c.rs", &[]);
    let leaf = EntityNode::File(body(1.0, 1.0), &a);
    let tree = EntityNode::Folder(
        body(0.0, 0.0),
        "root".to_string(),
        vec![
            EntityNode::File(body(1.0, 1.0), &a),
            EntityNode::File(body(2.0, 2.0), &b),
            EntityNode::File(body(3.0, 3.0), &c),
        ],
    );
    assert_eq!(
        resolve_references(&leaf, &tree),
        vec![&body(3.0, 3.0), &body(2.0, 2.0), &body(1.0, 1.0), &body(2.0, 2.0)]
    );
}

#[test]
fn an_empty_folder_holds_no_file() {
    let tree: EntityNode<Body> = EntityNode::Folder(body(0.0, 0.0), "root".to_string(), vec![]);
    assert_eq!(find_ref("a.rs", &tree), None);
    assert!(tree.is_well_formed());
}

#[test]
fn a_file_node_that_stands_for_a_folder_is_not_well_formed() {
    let a = file("a.rs", &[]);
    let d = Item::Folder { name: "d".to_string(), items: vec![] };
    let good = EntityNode::Folder(
        body(0.0, 0.0),
        "root".to_string(),
        vec![EntityNode::File(body(1.0, 1.0), &a)],
    );
    let bad = EntityNode::Folder(
        body(0.0, 0.0),
        "root".to_string(),
        vec![EntityNode::File(body(1.0, 1.0), &a), EntityNode::File(body(1.0, 1.0), &d)],
    );
    assert!(good.is_well_formed());
    assert!(!bad.is_well_formed());
}

#[test]
fn the_body_is_read_and_replaced() {
    let a = file("a.rs", &[]);
    let leaf = EntityNode::File(body(1.0, 2.0), &a);
    assert_eq!(*leaf.entity(), body(1.0, 2.0));
    let moved = leaf.set_entity(body(5.0, 6.0));
    assert_eq!(*moved.entity(), body(5.0, 6.0));
    assert_eq!(find_ref("a.rs", &moved), Some(&body(5.0, 6.0)));

    let dir = EntityNode::Folder(
        body(0.0, 0.0),
        "root".to_string(),
        vec![EntityNode::File(body(1.0, 1.0), &a)],
    );
    let dir = dir.set_entity(body(7.0, 7.0));
    assert_eq!(*dir.entity(), body(7.0, 7.0));
    assert_eq!(find_ref("a.rs", &dir), Some(&body(1.0, 1.0)));
}

#[test]
fn the_body_is_changed_in_place() {
    let a = file("a.rs", &[]);
    let mut dir = EntityNode::Folder(
        body(0.0, 0.0),
        "root".to_string(),
        vec![EntityNode::File(body(1.0, 1.0), &a)],
    );
    dir.entity_mut().radius = 12.5;
    dir.entity_mut().x = -3.0;
    assert_eq!(*dir.entity(), Body { x: -3.0, y: 0.0, radius: 12.5 });
    assert_eq!(find_ref("a.rs", &dir), Some(&body(1.0, 1.0)));
}
