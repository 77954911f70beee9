//! The typed check-item handle, predefined items, and the event channel.

use muda::accelerator::{Accelerator, Code, Modifiers};
use muda::child::{MenuChild, MenuItemType, PredefinedMenuItemType};
use muda::error::Error;
use muda::events::{EventChannel, MenuEvent};
use muda::items::check::CheckMenuItem;
use muda::menu::Menu;
use muda::util::{AddOp, Counter};

#[test]
fn check_item_holds_its_state_before_attachment() {
    let mut c = Counter::new();
    let mut check = CheckMenuItem::new(&mut c, "Wrap", true, true, None);
    assert!(check.is_checked());
    assert!(check.is_enabled());
    assert_eq!(check.text(), "Wrap");
    check.set_checked(false);
    assert!(!check.is_checked());
    check.set_enabled(false);
    assert!(!check.is_enabled());
    check.set_text("Word wrap");
    assert_eq!(check.text(), "Word wrap");
}

#[test]
fn check_item_accelerator_rejects_the_unrepresentable() {
    let mut c = Counter::new();
    let mut check = CheckMenuItem::new(&mut c, "Wrap", true, false, None);
    let good = Accelerator::new(
        Some(Modifiers { shift: false, ctrl: true, alt: false, meta: false }),
        Code::KeyW,
    );
    check.set_accelerator(Some(good)).unwrap();
    let bad = Accelerator::new(None, Code::Abort);
    assert_eq!(check.set_accelerator(Some(bad)), Err(Error::AcceleratorParseError));
    check.set_accelerator(None).unwrap();
}

#[test]
fn unsupported_predefined_items_are_silently_skipped() {
    let mut c = Counter::new();
    let mut menu = Menu::new(&mut c);
    let quit = MenuChild::new_predefined(&mut c, PredefinedMenuItemType::Quit, None);
    let sep = MenuChild::new_predefined(&mut c, PredefinedMenuItemType::Separator, None);
    let sep_id = sep.id();
    menu.append(quit).unwrap();
    menu.append(sep).unwrap();
    // the quit item has no native form on this target and was skipped
    assert_eq!(menu.items().len(), 1);
    assert_eq!(menu.items()[0].id, sep_id);

    // the same policy holds inside a submenu
    let mut submenu = MenuChild::new_submenu(&mut c, "Edit", true);
    let minimize = MenuChild::new_predefined(&mut c, PredefinedMenuItemType::Minimize, None);
    submenu.add_menu_item(minimize, AddOp::Append).unwrap();
    assert_eq!(submenu.items().len(), 0);
}

#[test]
fn predefined_items_carry_their_standard_text_and_accelerator() {
    let mut c = Counter::new();
    let copy = MenuChild::new_predefined(&mut c, PredefinedMenuItemType::Copy, None);
    assert_eq!(copy.text(), "&Copy");
    assert_eq!(copy.item_type(), MenuItemType::Predefined);
    let accel = copy.accelerator.unwrap();
    assert_eq!(accel.key, Code::KeyC);
    assert!(accel.mods.ctrl);

    let named = MenuChild::new_predefined(&mut c, PredefinedMenuItemType::About, Some("Info"));
    assert_eq!(named.text(), "Info");
}

#[test]
fn xdo_keys_name_the_synthesized_sequences() {
    assert_eq!(PredefinedMenuItemType::Copy.xdo_keys(), "ctrl+c");
    assert_eq!(PredefinedMenuItemType::Cut.xdo_keys(), "ctrl+X");
    assert_eq!(PredefinedMenuItemType::Paste.xdo_keys(), "ctrl+v");
    assert_eq!(PredefinedMenuItemType::SelectAll.xdo_keys(), "ctrl+a");
}

#[test]
fn icon_items_carry_their_pixels() {
    let mut c = Counter::new();
    let mut menu = Menu::new(&mut c);
    let icon = muda::child::Icon { rgba: vec![1, 2, 3, 4], width: 1, height: 1 };
    let item = MenuChild::new_icon(&mut c, "Logo", true, Some(icon), None);
    let id = item.id();
    assert_eq!(item.item_type(), MenuItemType::Icon);
    menu.append(item).unwrap();
    menu.attach(31).unwrap();
    menu.attach(32).unwrap();

    // materializing reflected the icon into each native projection
    let node = &menu.items()[0];
    assert_eq!(node.bindings.len(), 2);
    for b in &node.bindings {
        assert_eq!(b.icon.as_ref().unwrap().rgba, vec![1, 2, 3, 4]);
    }

    // an icon change fans out to every projection
    let replacement = muda::child::Icon { rgba: vec![9, 9, 9, 9], width: 1, height: 1 };
    menu.set_icon(id, Some(replacement)).unwrap();
    let node = &menu.items()[0];
    assert_eq!(node.icon.as_ref().unwrap().rgba, vec![9, 9, 9, 9]);
    for b in &node.bindings {
        assert_eq!(b.icon.as_ref().unwrap().rgba, vec![9, 9, 9, 9]);
    }

    // clearing the icon clears every projection's image
    menu.set_icon(id, None).unwrap();
    let node = &menu.items()[0];
    assert!(node.icon.is_none());
    for b in &node.bindings {
        assert!(b.icon.is_none());
    }
    assert_eq!(menu.set_icon(777, None), Err(Error::NotAChildOfThisMenu));
}

#[test]
fn each_activation_enqueues_exactly_one_event() {
    let mut c = Counter::new();
    let mut menu = Menu::new(&mut c);
    let mut submenu = MenuChild::new_submenu(&mut c, "File", true);
    let open = MenuChild::new(&mut c, "Open", true, None);
    let open_id = open.id();
    submenu.add_menu_item(open, AddOp::Append).unwrap();
    menu.append(submenu).unwrap();
    let mut events = EventChannel::new();

    // one activation of a nested plain item: exactly one event with its id
    menu.native_activated(open_id, &mut events).unwrap();
    assert_eq!(events.len(), 1);
    assert_eq!(events.try_recv(), Some(MenuEvent { id: open_id }));
    assert!(events.try_recv().is_none());

    // an unknown identifier produces no event
    assert_eq!(menu.native_activated(9999, &mut events), Err(Error::NotAChildOfThisMenu));
    assert_eq!(events.len(), 0);
}

#[test]
fn event_channel_is_first_in_first_out() {
    let mut events = EventChannel::new();
    assert!(events.try_recv().is_none());
    events.send(MenuEvent { id: 7 });
    events.send(MenuEvent { id: 9 });
    events.send(MenuEvent { id: 7 });
    assert_eq!(events.len(), 3);
    assert_eq!(events.try_recv(), Some(MenuEvent { id: 7 }));
    assert_eq!(events.try_recv(), Some(MenuEvent { id: 9 }));
    assert_eq!(events.try_recv(), Some(MenuEvent { id: 7 }));
    assert!(events.try_recv().is_none());
    assert_eq!(events.len(), 0);
}

#[test]
fn each_idle_toggle_enqueues_its_own_event() {
    let mut c = Counter::new();
    let mut menu = Menu::new(&mut c);
    let first = CheckMenuItem::new(&mut c, "First", true, false, None);
    let second = CheckMenuItem::new(&mut c, "Second", true, false, None);
    let (id1, id2) = (first.id(), second.id());
    menu.append(first.into_child()).unwrap();
    menu.append(second.into_child()).unwrap();
    let mut events = EventChannel::new();

    menu.native_toggled(id2, true, &mut events).unwrap();
    menu.native_toggled(id1, true, &mut events).unwrap();

    assert_eq!(events.try_recv(), Some(MenuEvent { id: id2 }));
    assert_eq!(events.try_recv(), Some(MenuEvent { id: id1 }));
    assert!(events.try_recv().is_none());
}

#[test]
fn check_item_inside_a_submenu_syncs_through_the_menu() {
    let mut c = Counter::new();
    let mut menu = Menu::new(&mut c);
    let mut submenu = MenuChild::new_submenu(&mut c, "View", true);
    let check = CheckMenuItem::new(&mut c, "Wrap", true, false, None);
    let id = check.id();
    submenu.add_menu_item(check.into_child(), AddOp::Append).unwrap();
    menu.append(submenu).unwrap();
    menu.attach(300).unwrap();
    menu.attach(400).unwrap();

    menu.set_checked(id, true).unwrap();
    let leaf = &menu.items()[0].children[0];
    assert!(leaf.checked);
    assert_eq!(leaf.bindings.len(), 2);
    assert!(leaf.bindings.iter().all(|b| b.checked));

    let mut events = EventChannel::new();
    let dispatched = menu.native_toggled(id, false, &mut events).unwrap();
    assert!(dispatched);
    assert!(!menu.items()[0].children[0].checked);
    assert_eq!(events.try_recv(), Some(MenuEvent { id }));
}
