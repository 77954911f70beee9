//! Structural edits addressed at submenus nested inside an attached menu:
//! the fan-out reaches them wherever they sit in the tree.

use muda::child::MenuChild;
use muda::error::Error;
use muda::menu::Menu;
use muda::util::{AddOp, Counter};

const S1: u32 = 11;
const S2: u32 = 22;

fn surfaces_of(node: &MenuChild) -> Vec<u32> {
    node.bindings.iter().map(|b| b.surface).collect()
}

#[test]
fn appending_into_a_nested_submenu_materializes_on_every_surface() {
    let mut c = Counter::new();
    let mut menu = Menu::new(&mut c);
    let submenu = MenuChild::new_submenu(&mut c, "File", true);
    let sub_id = submenu.id();
    menu.append(submenu).unwrap();
    menu.attach(S1).unwrap();
    menu.attach(S2).unwrap();

    let open = MenuChild::new(&mut c, "Open", true, None);
    let open_id = open.id();
    menu.add_to(sub_id, open, AddOp::Append).unwrap();

    let sub = &menu.items()[0];
    assert_eq!(sub.children.len(), 1);
    assert_eq!(sub.children[0].id, open_id);
    // the new leaf was materialized onto both attached surfaces
    assert_eq!(surfaces_of(&sub.children[0]), vec![S1, S2]);

    // and an insertion at a position works the same way
    let save = MenuChild::new(&mut c, "Save", true, None);
    let save_id = save.id();
    menu.add_to(sub_id, save, AddOp::Insert(0)).unwrap();
    let sub = &menu.items()[0];
    assert_eq!(sub.children[0].id, save_id);
    assert_eq!(sub.children[1].id, open_id);
    assert_eq!(surfaces_of(&sub.children[0]), vec![S1, S2]);
}

#[test]
fn removing_from_a_nested_submenu_tears_the_leaf_down() {
    let mut c = Counter::new();
    let mut menu = Menu::new(&mut c);
    let mut submenu = MenuChild::new_submenu(&mut c, "File", true);
    let open = MenuChild::new(&mut c, "Open", true, None);
    let save = MenuChild::new(&mut c, "Save", true, None);
    let (sub_id, open_id, save_id) = (submenu.id(), open.id(), save.id());
    submenu.add_menu_item(open, AddOp::Append).unwrap();
    submenu.add_menu_item(save, AddOp::Append).unwrap();
    menu.append(submenu).unwrap();
    menu.attach(S1).unwrap();

    menu.remove_from(sub_id, open_id).unwrap();

    let sub = &menu.items()[0];
    assert_eq!(sub.children.len(), 1);
    assert_eq!(sub.children[0].id, save_id);

    // removing an identifier that is not a direct child there fails
    assert_eq!(menu.remove_from(sub_id, open_id), Err(Error::NotAChildOfThisMenu));
    // and so does addressing a composite that does not exist
    assert_eq!(menu.remove_from(12345, save_id), Err(Error::NotAChildOfThisMenu));
    let tail = MenuChild::new(&mut c, "Tail", true, None);
    assert_eq!(menu.add_to(12345, tail, AddOp::Append), Err(Error::NotAChildOfThisMenu));
}

#[test]
fn state_sync_reaches_a_deeply_nested_node() {
    let mut c = Counter::new();
    let mut menu = Menu::new(&mut c);
    let mut outer = MenuChild::new_submenu(&mut c, "View", true);
    let mut inner = MenuChild::new_submenu(&mut c, "Advanced", true);
    let leaf = MenuChild::new(&mut c, "Leaf", true, None);
    let leaf_id = leaf.id();
    inner.add_menu_item(leaf, AddOp::Append).unwrap();
    outer.add_menu_item(inner, AddOp::Append).unwrap();
    menu.append(outer).unwrap();
    menu.attach(S1).unwrap();
    menu.attach(S2).unwrap();

    menu.set_text(leaf_id, "Renamed").unwrap();
    menu.set_enabled(leaf_id, false).unwrap();

    let node = &menu.items()[0].children[0].children[0];
    assert_eq!(node.text(), "Renamed");
    assert!(!node.enabled);
    assert_eq!(node.bindings.len(), 2);
    for b in &node.bindings {
        assert_eq!(b.text, "Renamed");
        assert!(!b.enabled);
    }
}
