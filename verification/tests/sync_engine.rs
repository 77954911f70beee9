//! The menu-tree synchronization engine, end to end: fan-out of structural
//! edits, attach/detach, checked-state synchronization with the reentrancy
//! guard, accelerator registration, and teardown.

use muda::accelerator::{Accelerator, Code, Modifiers};
use muda::child::MenuChild;
use muda::error::Error;
use muda::events::EventChannel;
use muda::items::check::CheckMenuItem;
use muda::menu::Menu;
use muda::util::{AddOp, Counter};

const S1: u32 = 100;
const S2: u32 = 200;

fn ctrl() -> Modifiers {
    Modifiers { shift: false, ctrl: true, alt: false, meta: false }
}

fn surfaces_of(node: &MenuChild) -> Vec<u32> {
    node.bindings.iter().map(|b| b.surface).collect()
}

/// The ordered identifier sequence recoverable from one surface's native
/// projection of a child list: the children that surface shows, in order.
fn projection_ids(children: &Vec<MenuChild>, s: u32) -> Vec<u32> {
    children
        .iter()
        .filter(|c| c.bindings.iter().any(|b| b.surface == s))
        .map(|c| c.id)
        .collect()
}

fn canonical_ids(children: &Vec<MenuChild>) -> Vec<u32> {
    children.iter().map(|c| c.id).collect()
}

#[test]
fn projections_mirror_canonical_after_every_edit() {
    let mut c = Counter::new();
    let mut menu = Menu::new(&mut c);
    let a = MenuChild::new(&mut c, "A", true, None);
    let b = MenuChild::new(&mut c, "B", true, None);
    let d = MenuChild::new(&mut c, "D", true, None);
    let (ida, idb, idd) = (a.id(), b.id(), d.id());

    menu.append(a).unwrap();
    menu.attach(S1).unwrap();
    menu.attach(S2).unwrap();

    // append while attached
    menu.append(b).unwrap();
    assert_eq!(canonical_ids(menu.items()), vec![ida, idb]);
    assert_eq!(projection_ids(menu.items(), S1), vec![ida, idb]);
    assert_eq!(projection_ids(menu.items(), S2), vec![ida, idb]);

    // insert in the middle while attached
    menu.insert(d, 1).unwrap();
    assert_eq!(canonical_ids(menu.items()), vec![ida, idd, idb]);
    assert_eq!(projection_ids(menu.items(), S1), vec![ida, idd, idb]);
    assert_eq!(projection_ids(menu.items(), S2), vec![ida, idd, idb]);

    // every child is bound to both surfaces, in attachment order
    for child in menu.items() {
        assert_eq!(surfaces_of(child), vec![S1, S2]);
    }

    // remove while attached
    menu.remove(idd).unwrap();
    assert_eq!(canonical_ids(menu.items()), vec![ida, idb]);
    assert_eq!(projection_ids(menu.items(), S1), vec![ida, idb]);
    assert_eq!(projection_ids(menu.items(), S2), vec![ida, idb]);
}

#[test]
fn detach_leaves_canonical_tree_and_other_surfaces_alone() {
    let mut c = Counter::new();
    let mut menu = Menu::new(&mut c);
    let a = MenuChild::new(&mut c, "A", true, None);
    let b = MenuChild::new(&mut c, "B", true, None);
    let (ida, idb) = (a.id(), b.id());
    menu.append(a).unwrap();
    menu.append(b).unwrap();
    menu.attach(S1).unwrap();
    menu.attach(S2).unwrap();

    menu.detach(S1).unwrap();

    // canonical tree unaffected
    assert_eq!(canonical_ids(menu.items()), vec![ida, idb]);
    assert_eq!(menu.items()[0].text(), "A");
    // the other surface's projection unaffected
    assert_eq!(projection_ids(menu.items(), S2), vec![ida, idb]);
    // no binding for the detached surface remains
    for child in menu.items() {
        assert_eq!(surfaces_of(child), vec![S2]);
    }
    assert!(!menu.is_attached(S1));
    assert!(menu.is_attached(S2));
}

#[test]
fn set_checked_reaches_both_surfaces_and_stays_silent() {
    let mut c = Counter::new();
    let mut menu = Menu::new(&mut c);
    let check = CheckMenuItem::new(&mut c, "Word wrap", true, false, None);
    let id = check.id();
    menu.append(check.into_child()).unwrap();
    menu.attach(S1).unwrap();
    menu.attach(S2).unwrap();
    let mut events = EventChannel::new();

    menu.set_checked(id, true).unwrap();

    let node = &menu.items()[0];
    assert!(node.checked);
    assert_eq!(node.bindings.len(), 2);
    assert!(node.bindings.iter().all(|b| b.checked));
    // the application-driven write is silent: the channel never saw a push
    assert_eq!(events.len(), 0);
    assert!(events.try_recv().is_none());
}

#[test]
fn toggle_during_synchronization_is_ignored() {
    let mut c = Counter::new();
    let mut menu = Menu::new(&mut c);
    let check = CheckMenuItem::new(&mut c, "Word wrap", true, false, None);
    let id = check.id();
    menu.append(check.into_child()).unwrap();
    menu.attach(S1).unwrap();
    menu.attach(S2).unwrap();
    let mut events = EventChannel::new();

    // a synchronization is in flight: the reentrancy guard is held
    menu.children[0].syncing = true;

    let dispatched = menu.native_toggled(id, true, &mut events).unwrap();

    assert!(!dispatched);
    // canonical state unchanged, no projection touched, no event produced
    assert!(!menu.items()[0].checked);
    assert!(menu.items()[0].bindings.iter().all(|b| !b.checked));
    assert_eq!(events.len(), 0);
}

#[test]
fn idle_toggle_updates_propagates_and_dispatches_exactly_one_event() {
    let mut c = Counter::new();
    let mut menu = Menu::new(&mut c);
    let check = CheckMenuItem::new(&mut c, "Word wrap", true, false, None);
    let id = check.id();
    menu.append(check.into_child()).unwrap();
    menu.attach(S1).unwrap();
    menu.attach(S2).unwrap();
    let mut events = EventChannel::new();

    let dispatched = menu.native_toggled(id, true, &mut events).unwrap();

    assert!(dispatched);
    let node = &menu.items()[0];
    assert!(node.checked);
    assert!(!node.syncing);
    assert!(node.bindings.iter().all(|b| b.checked));
    // exactly one event, bearing this node's identifier
    assert_eq!(events.len(), 1);
    assert_eq!(events.try_recv().unwrap().id, id);
    assert!(events.try_recv().is_none());
}

#[test]
fn double_attach_and_stray_detach_fail() {
    let mut c = Counter::new();
    let mut menu = Menu::new(&mut c);
    menu.attach(S1).unwrap();
    assert_eq!(menu.attach(S1), Err(Error::AlreadyInitialized));
    assert_eq!(menu.detach(S2), Err(Error::NotInitialized));
    assert_eq!(menu.show_for_surface(S2), Err(Error::NotInitialized));
    assert_eq!(menu.hide_for_surface(S2), Err(Error::NotInitialized));
    // the failed calls left the attachment state alone
    assert!(menu.is_attached(S1));
    assert!(!menu.is_attached(S2));
}

#[test]
fn removing_a_submenu_tears_down_every_native_handle() {
    let mut c = Counter::new();
    let mut menu = Menu::new(&mut c);
    let mut submenu = MenuChild::new_submenu(&mut c, "File", true);
    let open = MenuChild::new(&mut c, "Open", true, None);
    let save = MenuChild::new(&mut c, "Save", true, None);
    let quit = MenuChild::new(&mut c, "Quit", true, None);
    submenu.add_menu_item(open, AddOp::Append).unwrap();
    submenu.add_menu_item(save, AddOp::Append).unwrap();
    submenu.add_menu_item(quit, AddOp::Append).unwrap();
    let sub_id = submenu.id();

    menu.append(submenu).unwrap();
    menu.attach(S1).unwrap();
    menu.attach(S2).unwrap();

    // the submenu and each of its three children are projected onto both
    let sub = &menu.items()[0];
    assert_eq!(sub.children.len(), 3);
    assert_eq!(surfaces_of(sub), vec![S1, S2]);
    for leaf in &sub.children {
        assert_eq!(surfaces_of(leaf), vec![S1, S2]);
    }

    let removed = menu.remove(sub_id).unwrap();

    // zero native handles remain anywhere in the removed subtree
    assert_eq!(removed.bindings.len(), 0);
    for leaf in &removed.children {
        assert_eq!(leaf.bindings.len(), 0);
    }
    // and the composite's identifier is gone from the canonical list
    assert!(menu.items().iter().all(|ch| ch.id != sub_id));
    assert_eq!(menu.items().len(), 0);
}

#[test]
fn accelerator_round_trip_clears_every_registration() {
    let mut c = Counter::new();
    let mut menu = Menu::new(&mut c);
    let item = MenuChild::new(&mut c, "Save", true, None);
    let id = item.id();
    menu.append(item).unwrap();
    menu.attach(S1).unwrap();
    menu.attach(S2).unwrap();

    let spec = Accelerator::new(Some(ctrl()), Code::KeyS);
    menu.set_accelerator(id, Some(spec)).unwrap();
    let node = &menu.items()[0];
    assert!(node.bindings.iter().all(|b| b.accel.is_some()));
    assert_eq!(node.bindings[0].accel.unwrap().key, 83);

    menu.set_accelerator(id, None).unwrap();
    let node = &menu.items()[0];
    // no surface's accelerator table holds an entry for this node any more
    assert!(node.bindings.iter().all(|b| b.accel.is_none()));
    assert!(node.parsed_accelerator.is_none());
    assert!(node.accelerator.is_none());
}

#[test]
fn unrepresentable_accelerator_is_rejected_everywhere() {
    let mut c = Counter::new();
    let mut menu = Menu::new(&mut c);
    let item = MenuChild::new(&mut c, "Save", true, None);
    let id = item.id();
    menu.append(item).unwrap();
    menu.attach(S1).unwrap();

    let bad = Accelerator::new(None, Code::Fn);
    assert_eq!(menu.set_accelerator(id, Some(bad)), Err(Error::AcceleratorParseError));
    // nothing changed
    assert!(menu.items()[0].accelerator.is_none());

    // attaching a tree holding an unrepresentable accelerator fails whole
    let bad_item = MenuChild::new(&mut c, "Bad", true, Some(bad));
    let mut menu2 = Menu::new(&mut c);
    menu2.append(bad_item).unwrap();
    assert_eq!(menu2.attach(S1), Err(Error::AcceleratorParseError));
    assert!(!menu2.is_attached(S1));

    // appending such an item to an attached menu fails too
    let bad_item2 = MenuChild::new(&mut c, "Bad", true, Some(bad));
    assert_eq!(menu.append(bad_item2), Err(Error::AcceleratorParseError));
    assert_eq!(menu.items().len(), 1);
}

#[test]
fn absent_identifier_is_not_a_child_of_this_menu() {
    let mut c = Counter::new();
    let mut menu = Menu::new(&mut c);
    let item = MenuChild::new(&mut c, "A", true, None);
    menu.append(item).unwrap();
    let mut events = EventChannel::new();

    assert!(matches!(menu.remove(9999), Err(Error::NotAChildOfThisMenu)));
    assert_eq!(menu.set_checked(9999, true), Err(Error::NotAChildOfThisMenu));
    assert_eq!(menu.set_text(9999, "X"), Err(Error::NotAChildOfThisMenu));
    assert_eq!(menu.set_enabled(9999, false), Err(Error::NotAChildOfThisMenu));
    assert_eq!(menu.native_toggled(9999, true, &mut events), Err(Error::NotAChildOfThisMenu));
    assert_eq!(events.len(), 0);
    assert_eq!(menu.items().len(), 1);
}

#[test]
fn text_and_enabled_fan_out_to_every_projection() {
    let mut c = Counter::new();
    let mut menu = Menu::new(&mut c);
    let item = MenuChild::new(&mut c, "Old", true, None);
    let id = item.id();
    menu.append(item).unwrap();
    menu.attach(S1).unwrap();
    menu.attach(S2).unwrap();

    menu.set_text(id, "New").unwrap();
    menu.set_enabled(id, false).unwrap();

    let node = &menu.items()[0];
    assert_eq!(node.text(), "New");
    assert!(!node.is_enabled());
    for b in &node.bindings {
        assert_eq!(b.text, "New");
        assert!(!b.enabled);
    }
}

#[test]
fn show_hide_and_visibility() {
    let mut c = Counter::new();
    let mut menu = Menu::new(&mut c);
    // a visibility query on a never-attached surface fails
    assert_eq!(menu.is_visible_on(S1), Err(Error::NotInitialized));
    menu.attach(S1).unwrap();
    // attach shows the fresh container
    assert_eq!(menu.is_visible_on(S1), Ok(true));
    menu.hide_for_surface(S1).unwrap();
    assert_eq!(menu.is_visible_on(S1), Ok(false));
    menu.show_for_surface(S1).unwrap();
    assert_eq!(menu.is_visible_on(S1), Ok(true));
    menu.detach(S1).unwrap();
    assert_eq!(menu.is_visible_on(S1), Err(Error::NotInitialized));
}

#[test]
fn context_menu_is_one_more_surface() {
    let mut c = Counter::new();
    let mut menu = Menu::new(&mut c);
    let item = MenuChild::new(&mut c, "A", true, None);
    let id = item.id();
    menu.append(item).unwrap();

    let key = menu.context_menu();
    assert!(menu.is_attached(key));
    assert_eq!(projection_ids(menu.items(), key), vec![id]);
    // asking again reuses the same surface
    let key2 = menu.context_menu();
    assert_eq!(key, key2);
    assert_eq!(menu.items()[0].bindings.len(), 1);
}

#[test]
fn batch_operations_apply_in_order_and_abort_on_first_error() {
    let mut c = Counter::new();
    let mut menu = Menu::new(&mut c);
    let a = MenuChild::new(&mut c, "A", true, None);
    let b = MenuChild::new(&mut c, "B", true, None);
    let (ida, idb) = (a.id(), b.id());
    menu.append_items(vec![a, b]).unwrap();
    assert_eq!(canonical_ids(menu.items()), vec![ida, idb]);

    let p = MenuChild::new(&mut c, "P", true, None);
    let q = MenuChild::new(&mut c, "Q", true, None);
    let (idp, idq) = (p.id(), q.id());
    menu.prepend_items(vec![p, q]).unwrap();
    assert_eq!(canonical_ids(menu.items()), vec![idp, idq, ida, idb]);

    // a failure partway leaves earlier items applied and aborts the rest
    menu.attach(S1).unwrap();
    let good = MenuChild::new(&mut c, "Good", true, None);
    let bad = MenuChild::new(&mut c, "Bad", true, Some(Accelerator::new(None, Code::Fn)));
    let tail = MenuChild::new(&mut c, "Tail", true, None);
    let idgood = good.id();
    let idtail = tail.id();
    assert_eq!(menu.append_items(vec![good, bad, tail]), Err(Error::AcceleratorParseError));
    let ids = canonical_ids(menu.items());
    assert!(ids.contains(&idgood));
    assert!(!ids.contains(&idtail));
}

#[test]
fn with_items_builds_a_detached_menu() {
    let mut c = Counter::new();
    let a = MenuChild::new(&mut c, "A", true, None);
    let b = MenuChild::new(&mut c, "B", true, None);
    let (ida, idb) = (a.id(), b.id());
    let menu = Menu::with_items(&mut c, vec![a, b]).unwrap();
    assert_eq!(canonical_ids(menu.items()), vec![ida, idb]);
    assert!(menu.items().iter().all(|ch| ch.bindings.is_empty()));
}

#[test]
fn removed_item_can_be_appended_again() {
    let mut c = Counter::new();
    let mut menu = Menu::new(&mut c);
    let item = MenuChild::new(&mut c, "A", true, None);
    let id = item.id();
    menu.append(item).unwrap();
    menu.attach(S1).unwrap();

    let back = menu.remove(id).unwrap();
    assert_eq!(back.bindings.len(), 0);
    menu.append(back).unwrap();
    assert_eq!(projection_ids(menu.items(), S1), vec![id]);
}

#[test]
fn an_empty_menu_attaches_and_fans_out_later_edits() {
    let mut c = Counter::new();
    let mut menu = Menu::new(&mut c);
    menu.attach(S1).unwrap();
    assert_eq!(menu.items().len(), 0);

    // a child appended after attachment is materialized immediately
    let item = MenuChild::new(&mut c, "Late", true, None);
    let id = item.id();
    menu.append(item).unwrap();
    assert_eq!(projection_ids(menu.items(), S1), vec![id]);

    // removing the only child leaves an empty, still-attached menu
    menu.remove(id).unwrap();
    assert_eq!(menu.items().len(), 0);
    assert!(menu.is_attached(S1));
    menu.detach(S1).unwrap();
    assert_eq!(menu.items().len(), 0);
}

#[test]
fn a_detached_key_can_be_attached_again() {
    let mut c = Counter::new();
    let mut menu = Menu::new(&mut c);
    let item = MenuChild::new(&mut c, "A", true, None);
    menu.append(item).unwrap();
    menu.attach(S1).unwrap();
    menu.detach(S1).unwrap();
    menu.attach(S1).unwrap();
    assert_eq!(surfaces_of(&menu.items()[0]), vec![S1]);
}

#[test]
fn insert_at_the_end_boundary_appends() {
    let mut c = Counter::new();
    let mut menu = Menu::new(&mut c);
    let a = MenuChild::new(&mut c, "A", true, None);
    let b = MenuChild::new(&mut c, "B", true, None);
    let (ida, idb) = (a.id(), b.id());
    menu.append(a).unwrap();
    menu.insert(b, 1).unwrap();
    assert_eq!(canonical_ids(menu.items()), vec![ida, idb]);
}

#[test]
fn identifiers_are_unique_and_increasing() {
    let mut c = Counter::new();
    let a = MenuChild::new(&mut c, "A", true, None);
    let b = MenuChild::new_submenu(&mut c, "B", true);
    let d = CheckMenuItem::new(&mut c, "D", true, false, None);
    let menu = Menu::new(&mut c);
    assert!(a.id() < b.id());
    assert!(b.id() < d.id());
    assert!(d.id() < menu.id());
}
