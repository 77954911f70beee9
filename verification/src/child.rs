//! The tree entity: one logical menu item, submenu or predefined item,
//! together with its canonical child list and its per-surface native
//! bindings.

use vstd::prelude::*;

use vstd::pervasive::VecAdditionalExecFns;

use crate::accelerator::{parse_accelerator, Accelerator, ParsedAccel};
use crate::error::Error;
use crate::events::{EventChannel, MenuEvent};
use crate::model::{
    accel_unrepresentable, add_child_f, child_index, distinct_child_ids, has_child, insert_ok_p,
    is_submenu_p,
    keeps_surface, lemma_child_index, mat_add, mat_fresh, no_child_p, not_predefined_p, popt,
    pos_of, predefined_skip, rm_child_f, set_accel_f, set_checked_f, set_enabled_f, set_icon_f,
    set_text_f, toggle_events, toggle_events_seq, toggle_f, unmat, vupdate, BView, IconView,
    NodeView,
};
use crate::util::AddOp;
use crate::util::Counter;

verus! {

/// Which kind of tree entity a node is.
#[derive(Clone, Copy, PartialEq, Eq, Structural, Debug)]
pub enum MenuItemType {
    MenuItem,
    Submenu,
    Predefined,
    Check,
    Icon,
}

/// The platform-standard item subtypes.
///
/// On this target only `Separator`, `Copy`, `Cut`, `Paste`, `SelectAll` and
/// `About` have a native form; a composite silently skips the others when
/// they are added to it.
#[derive(Clone, Copy, PartialEq, Eq, Structural, Debug)]
pub enum PredefinedMenuItemType {
    Separator,
    Copy,
    Cut,
    Paste,
    SelectAll,
    About,
    Minimize,
    Quit,
}

/// An icon as raw RGBA pixel data.
pub struct Icon {
    pub rgba: Vec<u8>,
    pub width: u32,
    pub height: u32,
}

impl View for Icon {
    type V = IconView;

    open spec fn view(&self) -> IconView {
        IconView { rgba: self.rgba@, width: self.width, height: self.height }
    }
}

/// One native widget instance: the projection of this node onto one surface.
/// Created when the node (or an ancestor) is attached to the surface, torn
/// down when it is detached or the node is removed.
pub struct Binding {
    pub surface: u32,
    pub checked: bool,
    pub text: String,
    pub enabled: bool,
    pub icon: Option<Icon>,
    pub accel: Option<ParsedAccel>,
}

impl View for Binding {
    type V = BView;

    open spec fn view(&self) -> BView {
        BView {
            surface: self.surface,
            checked: self.checked,
            text: self.text@,
            enabled: self.enabled,
            icon: match self.icon {
                Option::Some(ic) => Option::Some(ic@),
                Option::None => Option::None,
            },
            accel: self.accel,
        }
    }
}

/// A generic child in a menu: the canonical attributes, the canonical child
/// list (for submenus) and the surface registry of native bindings.
pub struct MenuChild {
    pub id: u32,
    pub item_type: MenuItemType,
    pub predefined_item_type: PredefinedMenuItemType,
    pub text: String,
    pub enabled: bool,
    pub checked: bool,
    pub syncing: bool,
    pub icon: Option<Icon>,
    pub accelerator: Option<Accelerator>,
    pub parsed_accelerator: Option<ParsedAccel>,
    pub bindings: Vec<Binding>,
    pub children: Vec<MenuChild>,
}

/// The view of a whole subtree.
pub open spec fn node_view(c: MenuChild) -> NodeView
    decreases c,
{
    NodeView {
        id: c.id,
        item_type: c.item_type,
        predefined_item_type: c.predefined_item_type,
        text: c.text@,
        enabled: c.enabled,
        checked: c.checked,
        syncing: c.syncing,
        icon: match c.icon {
            Option::Some(ic) => Option::Some(ic@),
            Option::None => Option::None,
        },
        accelerator: c.accelerator,
        parsed: c.parsed_accelerator,
        bindings: Seq::new(c.bindings@.len(), |i: int| c.bindings@[i]@),
        children: Seq::new(
            c.children@.len(),
            |i: int|
                if 0 <= i < c.children@.len() {
                    node_view(c.children@[i])
                } else {
                    NodeView::placeholder()
                },
        ),
    }
}

impl View for MenuChild {
    type V = NodeView;

    open spec fn view(&self) -> NodeView {
        node_view(*self)
    }
}

/// The views of a sequence of nodes, in order.
pub open spec fn views_of(s: Seq<MenuChild>) -> Seq<NodeView> {
    Seq::new(s.len(), |i: int| node_view(s[i]))
}

/// The view a constructor establishes: the given attributes, no children,
/// no bindings, no cached accelerator parse, guard idle.
pub open spec fn fresh_view(
    id: u32,
    item_type: MenuItemType,
    predefined_item_type: PredefinedMenuItemType,
    text: Seq<char>,
    enabled: bool,
    checked: bool,
    icon: Option<IconView>,
    accelerator: Option<Accelerator>,
) -> NodeView {
    NodeView {
        id,
        item_type,
        predefined_item_type,
        text,
        enabled,
        checked,
        syncing: false,
        icon,
        accelerator,
        parsed: Option::None,
        bindings: Seq::empty(),
        children: Seq::empty(),
    }
}

impl MenuChild {
    /// A new plain menu item, with a fresh identifier from `counter`.
    pub fn new(
        counter: &mut Counter,
        text: &str,
        enabled: bool,
        accelerator: Option<Accelerator>,
    ) -> (r: MenuChild)
        requires
            old(counter).spec_value() < u32::MAX,
        ensures
            r@ == fresh_view(
                old(counter).spec_value(),
                MenuItemType::MenuItem,
                PredefinedMenuItemType::Separator,
                text@,
                enabled,
                false,
                Option::None,
                accelerator,
            ),
            final(counter).spec_value() == old(counter).spec_value() + 1,
    {
        let id = counter.next();
        let r = MenuChild {
            id,
            item_type: MenuItemType::MenuItem,
            predefined_item_type: PredefinedMenuItemType::Separator,
            text: String::from_str(text),
            enabled,
            checked: false,
            syncing: false,
            icon: None,
            accelerator,
            parsed_accelerator: None,
            bindings: Vec::new(),
            children: Vec::new(),
        };
        proof {
            assert(r@.bindings =~= Seq::<BView>::empty());
            assert(r@.children =~= Seq::<NodeView>::empty());
        }
        r
    }

    /// A new, empty submenu.
    pub fn new_submenu(counter: &mut Counter, text: &str, enabled: bool) -> (r: MenuChild)
        requires
            old(counter).spec_value() < u32::MAX,
        ensures
            r@ == fresh_view(
                old(counter).spec_value(),
                MenuItemType::Submenu,
                PredefinedMenuItemType::Separator,
                text@,
                enabled,
                false,
                Option::None,
                Option::None,
            ),
            final(counter).spec_value() == old(counter).spec_value() + 1,
    {
        let id = counter.next();
        let r = MenuChild {
            id,
            item_type: MenuItemType::Submenu,
            predefined_item_type: PredefinedMenuItemType::Separator,
            text: String::from_str(text),
            enabled,
            checked: false,
            syncing: false,
            icon: None,
            accelerator: None,
            parsed_accelerator: None,
            bindings: Vec::new(),
            children: Vec::new(),
        };
        proof {
            assert(r@.bindings =~= Seq::<BView>::empty());
            assert(r@.children =~= Seq::<NodeView>::empty());
        }
        r
    }

    /// A new check menu item with the given canonical checked state.
    pub fn new_check(
        counter: &mut Counter,
        text: &str,
        enabled: bool,
        checked: bool,
        accelerator: Option<Accelerator>,
    ) -> (r: MenuChild)
        requires
            old(counter).spec_value() < u32::MAX,
        ensures
            r@ == fresh_view(
                old(counter).spec_value(),
                MenuItemType::Check,
                PredefinedMenuItemType::Separator,
                text@,
                enabled,
                checked,
                Option::None,
                accelerator,
            ),
            final(counter).spec_value() == old(counter).spec_value() + 1,
    {
        let id = counter.next();
        let r = MenuChild {
            id,
            item_type: MenuItemType::Check,
            predefined_item_type: PredefinedMenuItemType::Separator,
            text: String::from_str(text),
            enabled,
            checked,
            syncing: false,
            icon: None,
            accelerator,
            parsed_accelerator: None,
            bindings: Vec::new(),
            children: Vec::new(),
        };
        proof {
            assert(r@.bindings =~= Seq::<BView>::empty());
            assert(r@.children =~= Seq::<NodeView>::empty());
        }
        r
    }

    /// A new icon menu item.
    pub fn new_icon(
        counter: &mut Counter,
        text: &str,
        enabled: bool,
        icon: Option<Icon>,
        accelerator: Option<Accelerator>,
    ) -> (r: MenuChild)
        requires
            old(counter).spec_value() < u32::MAX,
        ensures
            r@ == fresh_view(
                old(counter).spec_value(),
                MenuItemType::Icon,
                PredefinedMenuItemType::Separator,
                text@,
                enabled,
                false,
                match icon {
                    Option::Some(ic) => Option::Some(ic@),
                    Option::None => Option::None,
                },
                accelerator,
            ),
            final(counter).spec_value() == old(counter).spec_value() + 1,
    {
        let id = counter.next();
        let r = MenuChild {
            id,
            item_type: MenuItemType::Icon,
            predefined_item_type: PredefinedMenuItemType::Separator,
            text: String::from_str(text),
            enabled,
            checked: false,
            syncing: false,
            icon,
            accelerator,
            parsed_accelerator: None,
            bindings: Vec::new(),
            children: Vec::new(),
        };
        proof {
            assert(r@.bindings =~= Seq::<BView>::empty());
            assert(r@.children =~= Seq::<NodeView>::empty());
        }
        r
    }

    /// A new icon menu item described by a platform icon name; this target
    /// has no native-icon support, so only the text is kept.
    pub fn new_native_icon(
        counter: &mut Counter,
        text: &str,
        enabled: bool,
        accelerator: Option<Accelerator>,
    ) -> (r: MenuChild)
        requires
            old(counter).spec_value() < u32::MAX,
        ensures
            r@ == fresh_view(
                old(counter).spec_value(),
                MenuItemType::Icon,
                PredefinedMenuItemType::Separator,
                text@,
                enabled,
                false,
                Option::None,
                accelerator,
            ),
            final(counter).spec_value() == old(counter).spec_value() + 1,
    {
        let id = counter.next();
        let r = MenuChild {
            id,
            item_type: MenuItemType::Icon,
            predefined_item_type: PredefinedMenuItemType::Separator,
            text: String::from_str(text),
            enabled,
            checked: false,
            syncing: false,
            icon: None,
            accelerator,
            parsed_accelerator: None,
            bindings: Vec::new(),
            children: Vec::new(),
        };
        proof {
            assert(r@.bindings =~= Seq::<BView>::empty());
            assert(r@.children =~= Seq::<NodeView>::empty());
        }
        r
    }

    /// A new platform-standard item.  Its text and accelerator hint are
    /// fixed by the subtype; an explicit text overrides the standard one.
    pub fn new_predefined(
        counter: &mut Counter,
        item_type: PredefinedMenuItemType,
        text: Option<&str>,
    ) -> (r: MenuChild)
        requires
            old(counter).spec_value() < u32::MAX,
        ensures
            r@ == fresh_view(
                old(counter).spec_value(),
                MenuItemType::Predefined,
                item_type,
                match text {
                    Option::Some(t) => t@,
                    Option::None => predefined_text(item_type),
                },
                true,
                false,
                Option::None,
                predefined_accelerator(item_type),
            ),
            final(counter).spec_value() == old(counter).spec_value() + 1,
    {
        let id = counter.next();
        let t: String = match text {
            Some(t) => String::from_str(t),
            None => predefined_text_exec(item_type),
        };
        let r = MenuChild {
            id,
            item_type: MenuItemType::Predefined,
            predefined_item_type: item_type,
            text: t,
            enabled: true,
            checked: false,
            syncing: false,
            icon: None,
            accelerator: predefined_accelerator_exec(item_type),
            parsed_accelerator: None,
            bindings: Vec::new(),
            children: Vec::new(),
        };
        proof {
            assert(r@.bindings =~= Seq::<BView>::empty());
            assert(r@.children =~= Seq::<NodeView>::empty());
        }
        r
    }

    /// The unique identifier of this node.
    pub fn id(&self) -> (r: u32)
        ensures
            r == self@.id,
    {
        self.id
    }

    /// Which kind of tree entity this node is.
    pub fn item_type(&self) -> (r: MenuItemType)
        ensures
            r == self@.item_type,
    {
        self.item_type
    }

    /// The canonical text of this node.
    pub fn text(&self) -> (r: String)
        ensures
            r@ == self@.text,
    {
        self.text.clone()
    }

    /// The canonical enabled flag.
    pub fn is_enabled(&self) -> (r: bool)
        ensures
            r == self@.enabled,
    {
        self.enabled
    }

    /// The canonical checked state of a check item.
    pub fn is_checked(&self) -> (r: bool)
        ensures
            r == self@.checked,
    {
        self.checked
    }

    /// The canonical child list of this submenu, in order.  A query on a
    /// composite: leaves have no child list.
    pub fn items(&self) -> (r: &Vec<MenuChild>)
        requires
            self@.item_type is Submenu,
        ensures
            r == self.children,
    {
        &self.children
    }
}

impl MenuChild {
    /// Set the canonical text and push it into every native projection.
    #[verifier::loop_isolation(false)]
    pub fn set_text(&mut self, text: &str)
        ensures
            final(self)@ == set_text_f(text@)(old(self)@),
    {
        self.text = String::from_str(text);
        let n = self.bindings.len();
        let mut nb: Vec<Binding> = Vec::new();
        let mut i: usize = 0;
        while i < n
            invariant
                i <= n,
                nb@.len() == i,
                forall|j: int|
                    0 <= j < i ==> (#[trigger] nb@[j])@ == (BView {
                        text: text@,
                        ..old(self).bindings@[j]@
                    }),
            decreases n - i,
        {
            let b = &self.bindings[i];
            nb.push(
                Binding {
                    surface: b.surface,
                    checked: b.checked,
                    text: String::from_str(text),
                    enabled: b.enabled,
                    icon: clone_opt_icon(&b.icon),
                    accel: b.accel,
                },
            );
            i = i + 1;
        }
        self.bindings = nb;
        proof {
            let f = set_text_f(text@);
            let ov = node_view(*old(self));
            assert(node_view(*self).bindings =~= f(ov).bindings);
            assert(node_view(*self).children =~= f(ov).children);
            assert(node_view(*self) =~= f(ov));
        }
    }

    /// Enable or disable this node and every native projection of it.
    #[verifier::loop_isolation(false)]
    pub fn set_enabled(&mut self, enabled: bool)
        ensures
            final(self)@ == set_enabled_f(enabled)(old(self)@),
    {
        self.enabled = enabled;
        let n = self.bindings.len();
        let mut nb: Vec<Binding> = Vec::new();
        let mut i: usize = 0;
        while i < n
            invariant
                i <= n,
                nb@.len() == i,
                forall|j: int|
                    0 <= j < i ==> (#[trigger] nb@[j])@ == (BView {
                        enabled: enabled,
                        ..old(self).bindings@[j]@
                    }),
            decreases n - i,
        {
            let b = &self.bindings[i];
            nb.push(
                Binding {
                    surface: b.surface,
                    checked: b.checked,
                    text: b.text.clone(),
                    enabled: enabled,
                    icon: clone_opt_icon(&b.icon),
                    accel: b.accel,
                },
            );
            i = i + 1;
        }
        self.bindings = nb;
        proof {
            let f = set_enabled_f(enabled);
            let ov = node_view(*old(self));
            assert(node_view(*self).bindings =~= f(ov).bindings);
            assert(node_view(*self).children =~= f(ov).children);
            assert(node_view(*self) =~= f(ov));
        }
    }

    /// The application-driven checked-state write: stores the canonical
    /// value and pushes it into every native projection, holding the
    /// reentrancy guard while doing so.  This path is silent: it produces no
    /// event, and the guard ends idle.
    #[verifier::loop_isolation(false)]
    pub fn set_checked(&mut self, checked: bool)
        ensures
            final(self)@ == set_checked_f(checked)(old(self)@),
    {
        self.checked = checked;
        self.syncing = true;
        let n = self.bindings.len();
        let mut nb: Vec<Binding> = Vec::new();
        let mut i: usize = 0;
        while i < n
            invariant
                i <= n,
                nb@.len() == i,
                forall|j: int|
                    0 <= j < i ==> (#[trigger] nb@[j])@ == (BView {
                        checked: checked,
                        ..old(self).bindings@[j]@
                    }),
            decreases n - i,
        {
            let b = &self.bindings[i];
            nb.push(
                Binding {
                    surface: b.surface,
                    checked: checked,
                    text: b.text.clone(),
                    enabled: b.enabled,
                    icon: clone_opt_icon(&b.icon),
                    accel: b.accel,
                },
            );
            i = i + 1;
        }
        self.bindings = nb;
        self.syncing = false;
        proof {
            let f = set_checked_f(checked);
            let ov = node_view(*old(self));
            assert(node_view(*self).bindings =~= f(ov).bindings);
            assert(node_view(*self).children =~= f(ov).children);
            assert(node_view(*self) =~= f(ov));
        }
    }

    /// The native-driven toggle callback of the checked-state synchronizer.
    ///
    /// If the reentrancy guard is held (`syncing`), the callback is the echo
    /// of a synchronization in flight and is ignored: no state changes and
    /// no event is produced.  Otherwise the toggled value becomes canonical,
    /// is propagated to every native projection, the guard is released, and
    /// exactly one event bearing this node's identifier is enqueued.
    #[verifier::loop_isolation(false)]
    pub fn native_toggled(&mut self, value: bool, events: &mut EventChannel) -> (dispatched: bool)
        ensures
            final(self)@ == toggle_f(value)(old(self)@),
            dispatched == !old(self)@.syncing,
            dispatched ==> final(events)@ == old(events)@.push(old(self)@.id),
            !dispatched ==> final(events)@ == old(events)@,
    {
        let should_dispatch = !self.syncing;
        if should_dispatch {
            self.syncing = true;
            self.checked = value;
            let n = self.bindings.len();
            let mut nb: Vec<Binding> = Vec::new();
            let mut i: usize = 0;
            while i < n
                invariant
                    i <= n,
                    nb@.len() == i,
                    forall|j: int|
                        0 <= j < i ==> (#[trigger] nb@[j])@ == (BView {
                            checked: value,
                            ..old(self).bindings@[j]@
                        }),
                decreases n - i,
            {
                let b = &self.bindings[i];
                nb.push(
                    Binding {
                        surface: b.surface,
                        checked: value,
                        text: b.text.clone(),
                        enabled: b.enabled,
                        icon: clone_opt_icon(&b.icon),
                        accel: b.accel,
                    },
                );
                i = i + 1;
            }
            self.bindings = nb;
            self.syncing = false;
            events.send(MenuEvent { id: self.id });
            proof {
                let f = toggle_f(value);
                let ov = node_view(*old(self));
                assert(node_view(*self).bindings =~= f(ov).bindings);
                assert(node_view(*self).children =~= f(ov).children);
                assert(node_view(*self) =~= f(ov));
            }
            true
        } else {
            proof {
                let f = toggle_f(value);
                let ov = node_view(*old(self));
                assert(node_view(*self) =~= f(ov));
            }
            false
        }
    }

    /// Replace this node's accelerator: parse the new spec, unregister the
    /// previous platform binding from every surface showing this node and
    /// register the new one.  The parse result becomes the cached platform
    /// accelerator, reused the next time this node is attached to a surface.
    ///
    /// Fails with `AcceleratorParseError`, changing nothing, exactly when a
    /// spec is given whose key has no platform representation.  Predefined
    /// items carry a fixed accelerator hint and are not reconfigurable.
    #[verifier::loop_isolation(false)]
    pub fn set_accelerator(&mut self, accelerator: Option<Accelerator>) -> (r: Result<(), Error>)
        requires
            !(old(self)@.item_type is Predefined),
        ensures
            accel_unrepresentable(accelerator) ==> r == Err::<(), Error>(
                Error::AcceleratorParseError,
            ) && final(self)@ == old(self)@,
            !accel_unrepresentable(accelerator) ==> r == Ok::<(), Error>(()) && final(self)@
                == set_accel_f(accelerator)(old(self)@),
    {
        let parsed: Option<ParsedAccel> = match &accelerator {
            Some(a) => {
                match parse_accelerator(a) {
                    Ok(p) => Some(p),
                    Err(e) => {
                        return Err(e);
                    },
                }
            },
            None => None,
        };
        self.accelerator = accelerator;
        self.parsed_accelerator = parsed;
        let n = self.bindings.len();
        let mut nb: Vec<Binding> = Vec::new();
        let mut i: usize = 0;
        while i < n
            invariant
                i <= n,
                nb@.len() == i,
                parsed == popt(accelerator),
                forall|j: int|
                    0 <= j < i ==> (#[trigger] nb@[j])@ == (BView {
                        accel: popt(accelerator),
                        ..old(self).bindings@[j]@
                    }),
            decreases n - i,
        {
            let b = &self.bindings[i];
            nb.push(
                Binding {
                    surface: b.surface,
                    checked: b.checked,
                    text: b.text.clone(),
                    enabled: b.enabled,
                    icon: clone_opt_icon(&b.icon),
                    accel: parsed,
                },
            );
            i = i + 1;
        }
        self.bindings = nb;
        proof {
            let f = set_accel_f(accelerator);
            let ov = node_view(*old(self));
            assert(node_view(*self).bindings =~= f(ov).bindings);
            assert(node_view(*self).children =~= f(ov).children);
            assert(node_view(*self) =~= f(ov));
        }
        Ok(())
    }

    /// Replace the canonical icon and push it into every native projection:
    /// each widget's image is set to the new icon, or cleared where it is
    /// `None`.  (Scaling the pixels for display is the toolkit's work.)
    #[verifier::loop_isolation(false)]
    pub fn set_icon(&mut self, icon: Option<Icon>)
        ensures
            final(self)@ == set_icon_f(icon_view(icon))(old(self)@),
    {
        let n = self.bindings.len();
        let mut nb: Vec<Binding> = Vec::new();
        let mut i: usize = 0;
        while i < n
            invariant
                i <= n,
                nb@.len() == i,
                forall|j: int|
                    0 <= j < i ==> (#[trigger] nb@[j])@ == (BView {
                        icon: icon_view(icon),
                        ..old(self).bindings@[j]@
                    }),
            decreases n - i,
        {
            let b = &self.bindings[i];
            nb.push(
                Binding {
                    surface: b.surface,
                    checked: b.checked,
                    text: b.text.clone(),
                    enabled: b.enabled,
                    icon: clone_opt_icon(&icon),
                    accel: b.accel,
                },
            );
            i = i + 1;
        }
        self.bindings = nb;
        self.icon = icon;
        proof {
            let f = set_icon_f(icon_view(icon));
            let ov = node_view(*old(self));
            assert(node_view(*self).bindings =~= f(ov).bindings);
            assert(node_view(*self).children =~= f(ov).children);
            assert(node_view(*self) =~= f(ov));
        }
    }
}

impl MenuChild {
    /// A throwaway node used only to swap children out of their vector for
    /// in-place recursion; never observed.
    pub(crate) fn placeholder_node() -> MenuChild {
        MenuChild {
            id: 0,
            item_type: MenuItemType::MenuItem,
            predefined_item_type: PredefinedMenuItemType::Separator,
            text: String::new(),
            enabled: false,
            checked: false,
            syncing: false,
            icon: None,
            accelerator: None,
            parsed_accelerator: None,
            bindings: Vec::new(),
            children: Vec::new(),
        }
    }

    /// The checked-state write, addressed by identifier: applied to the
    /// node of this subtree carrying `id`.  Returns whether `id` occurs.
    #[verifier::loop_isolation(false)]
    pub fn update_checked(&mut self, id: u32, checked: bool) -> (found: bool)
        ensures
            final(self)@ == vupdate(old(self)@, id, set_checked_f(checked)),
            found == old(self)@.contains_id(id),
        decreases *old(self),
    {
        if self.id == id {
            self.set_checked(checked);
            true
        } else {
            let n = self.children.len();
            let mut i: usize = 0;
            let mut found = false;
            let mut tmp = MenuChild::placeholder_node();
            while i < n
                invariant
                    i <= n,
                    self.children@.len() == n,
                    self.id == old(self).id,
                    self.item_type == old(self).item_type,
                    self.predefined_item_type == old(self).predefined_item_type,
                    self.text == old(self).text,
                    self.enabled == old(self).enabled,
                    self.checked == old(self).checked,
                    self.syncing == old(self).syncing,
                    self.icon == old(self).icon,
                    self.accelerator == old(self).accelerator,
                    self.parsed_accelerator == old(self).parsed_accelerator,
                    self.bindings == old(self).bindings,
                    forall|j: int| i <= j < n ==> self.children@[j] == old(self).children@[j],
                    forall|j: int|
                        0 <= j < i ==> node_view(#[trigger] self.children@[j]) == vupdate(
                            node_view(old(self).children@[j]),
                            id,
                            set_checked_f(checked),
                        ),
                    found == exists|j: int|
                        0 <= j < i && (#[trigger] node_view(
                            old(self).children@[j],
                        )).contains_id(id),
                decreases n - i,
            {
                self.children.set_and_swap(i, &mut tmp);
                proof {
                    assert(tmp == old(self).children@[i as int]);
                    assert(decreases_to!(*old(self) => old(self).children));
                    assert(decreases_to!(old(self).children => old(self).children@));
                    assert(decreases_to!(old(self).children@ => old(self).children@[i as int]));
                    assert(decreases_to!(*old(self) => tmp));
                }
                let f1 = tmp.update_checked(id, checked);
                self.children.set_and_swap(i, &mut tmp);
                proof {
                    if f1 {
                        assert(node_view(old(self).children@[i as int]).contains_id(id));
                    }
                }
                found = found || f1;
                i = i + 1;
            }
            proof {
                let f = set_checked_f(checked);
                let ov = node_view(*old(self));
                let target = vupdate(ov, id, f);
                assert(node_view(*self).bindings =~= target.bindings);
                assert(node_view(*self).children =~= target.children);
                assert(node_view(*self) =~= target);
                if found {
                    let j = choose|j: int|
                        0 <= j < n && (#[trigger] node_view(old(self).children@[j])).contains_id(id);
                    assert(ov.children[j].contains_id(id));
                    assert(ov.contains_id(id));
                } else {
                    assert(!ov.contains_id(id)) by {
                        if ov.contains_id(id) {
                            let j = choose|j: int|
                                0 <= j < ov.children.len() && (#[trigger] ov.children[j]).contains_id(
                                    id,
                                );
                            assert(node_view(old(self).children@[j]).contains_id(id));
                        }
                    }
                }
            }
            found
        }
    }
}

impl MenuChild {
    /// The text change, addressed by identifier.
    #[verifier::loop_isolation(false)]
    pub fn update_text(&mut self, id: u32, text: &str) -> (found: bool)
        ensures
            final(self)@ == vupdate(old(self)@, id, set_text_f(text@)),
            found == old(self)@.contains_id(id),
        decreases *old(self),
    {
        if self.id == id {
            self.set_text(text);
            true
        } else {
            let n = self.children.len();
            let mut i: usize = 0;
            let mut found = false;
            let mut tmp = MenuChild::placeholder_node();
            while i < n
                invariant
                    i <= n,
                    self.children@.len() == n,
                    self.id == old(self).id,
                    self.item_type == old(self).item_type,
                    self.predefined_item_type == old(self).predefined_item_type,
                    self.text == old(self).text,
                    self.enabled == old(self).enabled,
                    self.checked == old(self).checked,
                    self.syncing == old(self).syncing,
                    self.icon == old(self).icon,
                    self.accelerator == old(self).accelerator,
                    self.parsed_accelerator == old(self).parsed_accelerator,
                    self.bindings == old(self).bindings,
                    forall|j: int| i <= j < n ==> self.children@[j] == old(self).children@[j],
                    forall|j: int|
                        0 <= j < i ==> node_view(#[trigger] self.children@[j]) == vupdate(
                            node_view(old(self).children@[j]),
                            id,
                            set_text_f(text@),
                        ),
                    found == exists|j: int|
                        0 <= j < i && (#[trigger] node_view(
                            old(self).children@[j],
                        )).contains_id(id),
                decreases n - i,
            {
                self.children.set_and_swap(i, &mut tmp);
                proof {
                    assert(tmp == old(self).children@[i as int]);
                    assert(decreases_to!(*old(self) => old(self).children));
                    assert(decreases_to!(old(self).children => old(self).children@));
                    assert(decreases_to!(old(self).children@ => old(self).children@[i as int]));
                    assert(decreases_to!(*old(self) => tmp));
                }
                let f1 = tmp.update_text(id, text);
                self.children.set_and_swap(i, &mut tmp);
                proof {
                    if f1 {
                        assert(node_view(old(self).children@[i as int]).contains_id(id));
                    }
                }
                found = found || f1;
                i = i + 1;
            }
            proof {
                let f = set_text_f(text@);
                let ov = node_view(*old(self));
                let target = vupdate(ov, id, f);
                assert(node_view(*self).bindings =~= target.bindings);
                assert(node_view(*self).children =~= target.children);
                assert(node_view(*self) =~= target);
                if found {
                    let j = choose|j: int|
                        0 <= j < n && (#[trigger] node_view(old(self).children@[j])).contains_id(id);
                    assert(ov.children[j].contains_id(id));
                    assert(ov.contains_id(id));
                } else {
                    assert(!ov.contains_id(id)) by {
                        if ov.contains_id(id) {
                            let j = choose|j: int|
                                0 <= j < ov.children.len() && (#[trigger] ov.children[j]).contains_id(
                                    id,
                                );
                            assert(node_view(old(self).children@[j]).contains_id(id));
                        }
                    }
                }
            }
            found
        }
    }

    /// The enabled change, addressed by identifier.
    #[verifier::loop_isolation(false)]
    pub fn update_enabled(&mut self, id: u32, enabled: bool) -> (found: bool)
        ensures
            final(self)@ == vupdate(old(self)@, id, set_enabled_f(enabled)),
            found == old(self)@.contains_id(id),
        decreases *old(self),
    {
        if self.id == id {
            self.set_enabled(enabled);
            true
        } else {
            let n = self.children.len();
            let mut i: usize = 0;
            let mut found = false;
            let mut tmp = MenuChild::placeholder_node();
            while i < n
                invariant
                    i <= n,
                    self.children@.len() == n,
                    self.id == old(self).id,
                    self.item_type == old(self).item_type,
                    self.predefined_item_type == old(self).predefined_item_type,
                    self.text == old(self).text,
                    self.enabled == old(self).enabled,
                    self.checked == old(self).checked,
                    self.syncing == old(self).syncing,
                    self.icon == old(self).icon,
                    self.accelerator == old(self).accelerator,
                    self.parsed_accelerator == old(self).parsed_accelerator,
                    self.bindings == old(self).bindings,
                    forall|j: int| i <= j < n ==> self.children@[j] == old(self).children@[j],
                    forall|j: int|
                        0 <= j < i ==> node_view(#[trigger] self.children@[j]) == vupdate(
                            node_view(old(self).children@[j]),
                            id,
                            set_enabled_f(enabled),
                        ),
                    found == exists|j: int|
                        0 <= j < i && (#[trigger] node_view(
                            old(self).children@[j],
                        )).contains_id(id),
                decreases n - i,
            {
                self.children.set_and_swap(i, &mut tmp);
                proof {
                    assert(tmp == old(self).children@[i as int]);
                    assert(decreases_to!(*old(self) => old(self).children));
                    assert(decreases_to!(old(self).children => old(self).children@));
                    assert(decreases_to!(old(self).children@ => old(self).children@[i as int]));
                    assert(decreases_to!(*old(self) => tmp));
                }
                let f1 = tmp.update_enabled(id, enabled);
                self.children.set_and_swap(i, &mut tmp);
                proof {
                    if f1 {
                        assert(node_view(old(self).children@[i as int]).contains_id(id));
                    }
                }
                found = found || f1;
                i = i + 1;
            }
            proof {
                let f = set_enabled_f(enabled);
                let ov = node_view(*old(self));
                let target = vupdate(ov, id, f);
                assert(node_view(*self).bindings =~= target.bindings);
                assert(node_view(*self).children =~= target.children);
                assert(node_view(*self) =~= target);
                if found {
                    let j = choose|j: int|
                        0 <= j < n && (#[trigger] node_view(old(self).children@[j])).contains_id(id);
                    assert(ov.children[j].contains_id(id));
                    assert(ov.contains_id(id));
                } else {
                    assert(!ov.contains_id(id)) by {
                        if ov.contains_id(id) {
                            let j = choose|j: int|
                                0 <= j < ov.children.len() && (#[trigger] ov.children[j]).contains_id(
                                    id,
                                );
                            assert(node_view(old(self).children@[j]).contains_id(id));
                        }
                    }
                }
            }
            found
        }
    }

    /// The accelerator change, addressed by identifier.  The caller has
    /// already parsed the new spec successfully, and no reachable node with
    /// this identifier is a predefined item.
    #[verifier::loop_isolation(false)]
    pub fn update_accelerator(&mut self, id: u32, accelerator: Option<Accelerator>) -> (found:
        bool)
        requires
            !accel_unrepresentable(accelerator),
            old(self)@.holds_at(id, not_predefined_p()),
        ensures
            final(self)@ == vupdate(old(self)@, id, set_accel_f(accelerator)),
            found == old(self)@.contains_id(id),
        decreases *old(self),
    {
        if self.id == id {
            proof {
                assert(not_predefined_p()(node_view(*self)));
            }
            let r = self.set_accelerator(accelerator);
            proof {
                assert(r == Ok::<(), Error>(()));
            }
            true
        } else {
            let n = self.children.len();
            let mut i: usize = 0;
            let mut found = false;
            let mut tmp = MenuChild::placeholder_node();
            while i < n
                invariant
                    i <= n,
                    self.children@.len() == n,
                    self.id == old(self).id,
                    self.item_type == old(self).item_type,
                    self.predefined_item_type == old(self).predefined_item_type,
                    self.text == old(self).text,
                    self.enabled == old(self).enabled,
                    self.checked == old(self).checked,
                    self.syncing == old(self).syncing,
                    self.icon == old(self).icon,
                    self.accelerator == old(self).accelerator,
                    self.parsed_accelerator == old(self).parsed_accelerator,
                    self.bindings == old(self).bindings,
                    forall|j: int| i <= j < n ==> self.children@[j] == old(self).children@[j],
                    forall|j: int|
                        0 <= j < i ==> node_view(#[trigger] self.children@[j]) == vupdate(
                            node_view(old(self).children@[j]),
                            id,
                            set_accel_f(accelerator),
                        ),
                    found == exists|j: int|
                        0 <= j < i && (#[trigger] node_view(
                            old(self).children@[j],
                        )).contains_id(id),
                decreases n - i,
            {
                self.children.set_and_swap(i, &mut tmp);
                proof {
                    assert(tmp == old(self).children@[i as int]);
                    assert(decreases_to!(*old(self) => old(self).children));
                    assert(decreases_to!(old(self).children => old(self).children@));
                    assert(decreases_to!(old(self).children@ => old(self).children@[i as int]));
                    assert(decreases_to!(*old(self) => tmp));
                    assert(node_view(old(self).children@[i as int]) == node_view(*old(self)).children[i as int]);
                    assert(node_view(tmp).holds_at(id, not_predefined_p()));
                }
                let f1 = tmp.update_accelerator(id, accelerator);
                self.children.set_and_swap(i, &mut tmp);
                proof {
                    if f1 {
                        assert(node_view(old(self).children@[i as int]).contains_id(id));
                    }
                }
                found = found || f1;
                i = i + 1;
            }
            proof {
                let f = set_accel_f(accelerator);
                let ov = node_view(*old(self));
                let target = vupdate(ov, id, f);
                assert(node_view(*self).bindings =~= target.bindings);
                assert(node_view(*self).children =~= target.children);
                assert(node_view(*self) =~= target);
                if found {
                    let j = choose|j: int|
                        0 <= j < n && (#[trigger] node_view(old(self).children@[j])).contains_id(id);
                    assert(ov.children[j].contains_id(id));
                    assert(ov.contains_id(id));
                } else {
                    assert(!ov.contains_id(id)) by {
                        if ov.contains_id(id) {
                            let j = choose|j: int|
                                0 <= j < ov.children.len() && (#[trigger] ov.children[j]).contains_id(
                                    id,
                                );
                            assert(node_view(old(self).children@[j]).contains_id(id));
                        }
                    }
                }
            }
            found
        }
    }
}

impl MenuChild {
    /// The native toggle callback, addressed by identifier: folds a user
    /// toggle on some surface back into the canonical state (see
    /// `native_toggled`), enqueueing one event per reached idle node.
    ///
    /// `r.0` says whether the identifier occurs at all; `r.1` whether any
    /// event was dispatched.
    #[verifier::loop_isolation(false)]
    pub fn update_toggle(&mut self, id: u32, value: bool, events: &mut EventChannel) -> (r: (
        bool,
        bool,
    ))
        ensures
            final(self)@ == vupdate(old(self)@, id, toggle_f(value)),
            r.0 == old(self)@.contains_id(id),
            final(events)@ == old(events)@ + toggle_events(old(self)@, id),
            r.1 == (toggle_events(old(self)@, id).len() > 0),
        decreases *old(self),
    {
        if self.id == id {
            let dispatched = self.native_toggled(value, events);
            proof {
                let ov = node_view(*old(self));
                assert(final(events)@ =~= old(events)@ + toggle_events(ov, id));
            }
            (true, dispatched)
        } else {
            let ghost cviews = node_view(*old(self)).children;
            let n = self.children.len();
            let mut i: usize = 0;
            let mut found = false;
            let mut dispatched = false;
            let mut tmp = MenuChild::placeholder_node();
            while i < n
                invariant
                    i <= n,
                    self.children@.len() == n,
                    cviews.len() == n,
                    self.id == old(self).id,
                    self.item_type == old(self).item_type,
                    self.predefined_item_type == old(self).predefined_item_type,
                    self.text == old(self).text,
                    self.enabled == old(self).enabled,
                    self.checked == old(self).checked,
                    self.syncing == old(self).syncing,
                    self.icon == old(self).icon,
                    self.accelerator == old(self).accelerator,
                    self.parsed_accelerator == old(self).parsed_accelerator,
                    self.bindings == old(self).bindings,
                    forall|j: int| i <= j < n ==> self.children@[j] == old(self).children@[j],
                    forall|j: int|
                        0 <= j < i ==> node_view(#[trigger] self.children@[j]) == vupdate(
                            node_view(old(self).children@[j]),
                            id,
                            toggle_f(value),
                        ),
                    found == exists|j: int|
                        0 <= j < i && (#[trigger] node_view(
                            old(self).children@[j],
                        )).contains_id(id),
                    events@ == old(events)@ + toggle_events_seq(cviews.take(i as int), id),
                    dispatched == (toggle_events_seq(cviews.take(i as int), id).len() > 0),
                decreases n - i,
            {
                self.children.set_and_swap(i, &mut tmp);
                proof {
                    assert(tmp == old(self).children@[i as int]);
                    assert(decreases_to!(*old(self) => old(self).children));
                    assert(decreases_to!(old(self).children => old(self).children@));
                    assert(decreases_to!(old(self).children@ => old(self).children@[i as int]));
                    assert(decreases_to!(*old(self) => tmp));
                }
                let ghost events_pre = events@;
                let r1 = tmp.update_toggle(id, value, events);
                self.children.set_and_swap(i, &mut tmp);
                proof {
                    if r1.0 {
                        assert(node_view(old(self).children@[i as int]).contains_id(id));
                    }
                    assert(cviews[i as int] == node_view(old(self).children@[i as int]));
                    assert(cviews.take(i + 1).drop_last() =~= cviews.take(i as int));
                    assert(cviews.take(i + 1).last() == cviews[i as int]);
                    assert(toggle_events_seq(cviews.take(i + 1), id) == toggle_events_seq(
                        cviews.take(i as int),
                        id,
                    ) + toggle_events(cviews[i as int], id));
                    assert(events@ =~= old(events)@ + toggle_events_seq(cviews.take(i + 1), id));
                }
                found = found || r1.0;
                dispatched = dispatched || r1.1;
                i = i + 1;
            }
            proof {
                let f = toggle_f(value);
                let ov = node_view(*old(self));
                let target = vupdate(ov, id, f);
                assert(node_view(*self).bindings =~= target.bindings);
                assert(node_view(*self).children =~= target.children);
                assert(node_view(*self) =~= target);
                assert(cviews.take(n as int) =~= cviews);
                assert(toggle_events(ov, id) == toggle_events_seq(cviews, id));
                if found {
                    let j = choose|j: int|
                        0 <= j < n && (#[trigger] node_view(old(self).children@[j])).contains_id(id);
                    assert(ov.children[j].contains_id(id));
                    assert(ov.contains_id(id));
                } else {
                    assert(!ov.contains_id(id)) by {
                        if ov.contains_id(id) {
                            let j = choose|j: int|
                                0 <= j < ov.children.len() && (#[trigger] ov.children[j]).contains_id(
                                    id,
                                );
                            assert(node_view(old(self).children@[j]).contains_id(id));
                        }
                    }
                }
            }
            (found, dispatched)
        }
    }
}

impl MenuChild {
    /// Whether every accelerator in this subtree has a platform
    /// representation: the pre-check that makes attach and insertion
    /// all-or-nothing.
    #[verifier::loop_isolation(false)]
    pub fn accels_ok_exec(&self) -> (r: bool)
        ensures
            r == self@.accels_ok(),
        decreases *self,
    {
        let own = match &self.accelerator {
            Some(a) => {
                match parse_accelerator(a) {
                    Ok(_) => true,
                    Err(_) => false,
                }
            },
            None => true,
        };
        if !own {
            return false;
        }
        let n = self.children.len();
        let mut i: usize = 0;
        while i < n
            invariant
                i <= n,
                forall|j: int|
                    0 <= j < i ==> node_view(#[trigger] self.children@[j]).accels_ok(),
            decreases n - i,
        {
            let c = &self.children[i];
            proof {
                assert(decreases_to!(*self => self.children));
                assert(decreases_to!(self.children => self.children@));
                assert(decreases_to!(self.children@ => self.children@[i as int]));
                assert(decreases_to!(*self => *c));
            }
            if !c.accels_ok_exec() {
                proof {
                    assert(node_view(*self).children[i as int] == node_view(*c));
                    assert(!node_view(*self).accels_ok());
                }
                return false;
            }
            i = i + 1;
        }
        proof {
            let ov = node_view(*self);
            assert forall|j: int| 0 <= j < ov.children.len() implies (#[trigger] ov.children[j]).accels_ok() by {
                assert(ov.children[j] == node_view(self.children@[j]));
            }
        }
        true
    }

    /// Whether the identifier occurs anywhere in this subtree.
    #[verifier::loop_isolation(false)]
    pub fn contains_id_exec(&self, id: u32) -> (r: bool)
        ensures
            r == self@.contains_id(id),
        decreases *self,
    {
        if self.id == id {
            return true;
        }
        let n = self.children.len();
        let mut i: usize = 0;
        while i < n
            invariant
                i <= n,
                forall|j: int|
                    0 <= j < i ==> !node_view(#[trigger] self.children@[j]).contains_id(id),
            decreases n - i,
        {
            let c = &self.children[i];
            proof {
                assert(decreases_to!(*self => self.children));
                assert(decreases_to!(self.children => self.children@));
                assert(decreases_to!(self.children@ => self.children@[i as int]));
                assert(decreases_to!(*self => *c));
            }
            if c.contains_id_exec(id) {
                proof {
                    assert(node_view(*self).children[i as int] == node_view(*c));
                    assert(node_view(*self).contains_id(id));
                }
                return true;
            }
            i = i + 1;
        }
        proof {
            let ov = node_view(*self);
            assert(!ov.contains_id(id)) by {
                if ov.contains_id(id) {
                    let j = choose|j: int|
                        0 <= j < ov.children.len() && (#[trigger] ov.children[j]).contains_id(id);
                    assert(node_view(self.children@[j]).contains_id(id));
                }
            }
        }
        false
    }

    /// Attach one more surface to every node of this subtree: each gains a
    /// fresh native projection of its current canonical state, and caches
    /// its parsed accelerator.
    #[verifier::loop_isolation(false)]
    pub fn attach_surface(&mut self, surface: u32)
        ensures
            final(self)@ == mat_add(old(self)@, surface),
        decreases *old(self),
    {
        let n = self.children.len();
        let mut i: usize = 0;
        let mut tmp = MenuChild::placeholder_node();
        while i < n
            invariant
                i <= n,
                self.children@.len() == n,
                self.id == old(self).id,
                self.item_type == old(self).item_type,
                self.predefined_item_type == old(self).predefined_item_type,
                self.text == old(self).text,
                self.enabled == old(self).enabled,
                self.checked == old(self).checked,
                self.syncing == old(self).syncing,
                self.icon == old(self).icon,
                self.accelerator == old(self).accelerator,
                self.parsed_accelerator == old(self).parsed_accelerator,
                self.bindings == old(self).bindings,
                forall|j: int| i <= j < n ==> self.children@[j] == old(self).children@[j],
                forall|j: int|
                    0 <= j < i ==> node_view(#[trigger] self.children@[j]) == mat_add(
                        node_view(old(self).children@[j]),
                        surface,
                    ),
            decreases n - i,
        {
            self.children.set_and_swap(i, &mut tmp);
            proof {
                assert(tmp == old(self).children@[i as int]);
                assert(decreases_to!(*old(self) => old(self).children));
                assert(decreases_to!(old(self).children => old(self).children@));
                assert(decreases_to!(old(self).children@ => old(self).children@[i as int]));
                assert(decreases_to!(*old(self) => tmp));
            }
            tmp.attach_surface(surface);
            self.children.set_and_swap(i, &mut tmp);
            i = i + 1;
        }
        let parsed: Option<ParsedAccel> = match &self.accelerator {
            Some(a) => {
                match parse_accelerator(a) {
                    Ok(p) => Some(p),
                    Err(_) => None,
                }
            },
            None => None,
        };
        self.parsed_accelerator = parsed;
        let b = Binding {
            surface,
            checked: self.checked,
            text: self.text.clone(),
            enabled: self.enabled,
            icon: clone_opt_icon(&self.icon),
            accel: parsed,
        };
        self.bindings.push(b);
        proof {
            let ov = node_view(*old(self));
            let target = mat_add(ov, surface);
            assert(parsed == popt(ov.accelerator));
            assert(node_view(*self).bindings =~= target.bindings);
            assert(node_view(*self).children =~= target.children);
            assert(node_view(*self) =~= target);
        }
    }

    /// Detach one surface from every node of this subtree: exactly the
    /// native projections for that surface are torn down; canonical state
    /// and every other surface's projections are untouched.
    #[verifier::loop_isolation(false)]
    pub fn detach_surface(&mut self, surface: u32)
        ensures
            final(self)@ == unmat(old(self)@, surface),
        decreases *old(self),
    {
        let n = self.children.len();
        let mut i: usize = 0;
        let mut tmp = MenuChild::placeholder_node();
        while i < n
            invariant
                i <= n,
                self.children@.len() == n,
                self.id == old(self).id,
                self.item_type == old(self).item_type,
                self.predefined_item_type == old(self).predefined_item_type,
                self.text == old(self).text,
                self.enabled == old(self).enabled,
                self.checked == old(self).checked,
                self.syncing == old(self).syncing,
                self.icon == old(self).icon,
                self.accelerator == old(self).accelerator,
                self.parsed_accelerator == old(self).parsed_accelerator,
                self.bindings == old(self).bindings,
                forall|j: int| i <= j < n ==> self.children@[j] == old(self).children@[j],
                forall|j: int|
                    0 <= j < i ==> node_view(#[trigger] self.children@[j]) == unmat(
                        node_view(old(self).children@[j]),
                        surface,
                    ),
            decreases n - i,
        {
            self.children.set_and_swap(i, &mut tmp);
            proof {
                assert(tmp == old(self).children@[i as int]);
                assert(decreases_to!(*old(self) => old(self).children));
                assert(decreases_to!(old(self).children => old(self).children@));
                assert(decreases_to!(old(self).children@ => old(self).children@[i as int]));
                assert(decreases_to!(*old(self) => tmp));
            }
            tmp.detach_surface(surface);
            self.children.set_and_swap(i, &mut tmp);
            i = i + 1;
        }
        let ghost obindings = node_view(*old(self)).bindings;
        let m = self.bindings.len();
        let mut nb: Vec<Binding> = Vec::new();
        let mut k: usize = 0;
        while k < m
            invariant
                k <= m,
                self.bindings == old(self).bindings,
                obindings.len() == m,
                forall|j: int| 0 <= j < m ==> obindings[j] == self.bindings@[j]@,
                nb@.map_values(|b: Binding| b@) =~= obindings.take(k as int).filter(
                    keeps_surface(surface),
                ),
            decreases m - k,
        {
            let b = &self.bindings[k];
            proof {
                reveal(Seq::filter);
                assert(obindings.take(k + 1).drop_last() =~= obindings.take(k as int));
                assert(obindings.take(k + 1).last() == obindings[k as int]);
            }
            if b.surface != surface {
                nb.push(
                    Binding {
                        surface: b.surface,
                        checked: b.checked,
                        text: b.text.clone(),
                        enabled: b.enabled,
                        icon: clone_opt_icon(&b.icon),
                        accel: b.accel,
                    },
                );
                proof {
                    assert(nb@.map_values(|b2: Binding| b2@) =~= obindings.take(k + 1).filter(
                        keeps_surface(surface),
                    ));
                }
            } else {
                proof {
                    assert(nb@.map_values(|b2: Binding| b2@) =~= obindings.take(k + 1).filter(
                        keeps_surface(surface),
                    ));
                }
            }
            k = k + 1;
        }
        self.bindings = nb;
        proof {
            let ov = node_view(*old(self));
            let target = unmat(ov, surface);
            assert(obindings.take(m as int) =~= obindings);
            assert(node_view(*self).bindings =~= target.bindings);
            assert(node_view(*self).children =~= target.children);
            assert(node_view(*self) =~= target);
        }
    }

    /// Tear down every native binding of this subtree, leaving the
    /// canonical tree untouched: the recursive teardown that removal
    /// performs before a subtree leaves its parent.
    #[verifier::loop_isolation(false)]
    pub fn strip_bindings(&mut self)
        ensures
            final(self)@ == old(self)@.strip(),
        decreases *old(self),
    {
        let n = self.children.len();
        let mut i: usize = 0;
        let mut tmp = MenuChild::placeholder_node();
        while i < n
            invariant
                i <= n,
                self.children@.len() == n,
                self.id == old(self).id,
                self.item_type == old(self).item_type,
                self.predefined_item_type == old(self).predefined_item_type,
                self.text == old(self).text,
                self.enabled == old(self).enabled,
                self.checked == old(self).checked,
                self.syncing == old(self).syncing,
                self.icon == old(self).icon,
                self.accelerator == old(self).accelerator,
                self.parsed_accelerator == old(self).parsed_accelerator,
                self.bindings == old(self).bindings,
                forall|j: int| i <= j < n ==> self.children@[j] == old(self).children@[j],
                forall|j: int|
                    0 <= j < i ==> node_view(#[trigger] self.children@[j]) == node_view(
                        old(self).children@[j],
                    ).strip(),
            decreases n - i,
        {
            self.children.set_and_swap(i, &mut tmp);
            proof {
                assert(tmp == old(self).children@[i as int]);
                assert(decreases_to!(*old(self) => old(self).children));
                assert(decreases_to!(old(self).children => old(self).children@));
                assert(decreases_to!(old(self).children@ => old(self).children@[i as int]));
                assert(decreases_to!(*old(self) => tmp));
            }
            tmp.strip_bindings();
            self.children.set_and_swap(i, &mut tmp);
            i = i + 1;
        }
        self.bindings = Vec::new();
        proof {
            let ov = node_view(*old(self));
            let target = ov.strip();
            assert(node_view(*self).bindings =~= target.bindings);
            assert(node_view(*self).children =~= target.children);
            assert(node_view(*self) =~= target);
        }
    }

    /// Materialize this fresh subtree onto the surfaces `keys`, in order:
    /// every node gets one native projection per key, replacing whatever
    /// bindings it held, and caches its parsed accelerator.
    #[verifier::loop_isolation(false)]
    pub fn materialize_fresh(&mut self, keys: &Vec<u32>)
        ensures
            final(self)@ == mat_fresh(old(self)@, keys@),
        decreases *old(self),
    {
        let n = self.children.len();
        let mut i: usize = 0;
        let mut tmp = MenuChild::placeholder_node();
        while i < n
            invariant
                i <= n,
                self.children@.len() == n,
                self.id == old(self).id,
                self.item_type == old(self).item_type,
                self.predefined_item_type == old(self).predefined_item_type,
                self.text == old(self).text,
                self.enabled == old(self).enabled,
                self.checked == old(self).checked,
                self.syncing == old(self).syncing,
                self.icon == old(self).icon,
                self.accelerator == old(self).accelerator,
                self.parsed_accelerator == old(self).parsed_accelerator,
                self.bindings == old(self).bindings,
                forall|j: int| i <= j < n ==> self.children@[j] == old(self).children@[j],
                forall|j: int|
                    0 <= j < i ==> node_view(#[trigger] self.children@[j]) == mat_fresh(
                        node_view(old(self).children@[j]),
                        keys@,
                    ),
            decreases n - i,
        {
            self.children.set_and_swap(i, &mut tmp);
            proof {
                assert(tmp == old(self).children@[i as int]);
                assert(decreases_to!(*old(self) => old(self).children));
                assert(decreases_to!(old(self).children => old(self).children@));
                assert(decreases_to!(old(self).children@ => old(self).children@[i as int]));
                assert(decreases_to!(*old(self) => tmp));
            }
            tmp.materialize_fresh(keys);
            self.children.set_and_swap(i, &mut tmp);
            i = i + 1;
        }
        let parsed: Option<ParsedAccel> = match &self.accelerator {
            Some(a) => {
                match parse_accelerator(a) {
                    Ok(p) => Some(p),
                    Err(_) => None,
                }
            },
            None => None,
        };
        self.parsed_accelerator = parsed;
        let m = keys.len();
        let mut nb: Vec<Binding> = Vec::new();
        let mut k: usize = 0;
        while k < m
            invariant
                k <= m,
                nb@.len() == k,
                parsed == popt(old(self).accelerator),
                self.checked == old(self).checked,
                self.text == old(self).text,
                self.enabled == old(self).enabled,
                self.icon == old(self).icon,
                forall|j: int|
                    0 <= j < k ==> (#[trigger] nb@[j])@ == (BView {
                        surface: keys@[j],
                        checked: old(self).checked,
                        text: old(self).text@,
                        enabled: old(self).enabled,
                        icon: icon_view(old(self).icon),
                        accel: popt(old(self).accelerator),
                    }),
            decreases m - k,
        {
            nb.push(
                Binding {
                    surface: keys[k],
                    checked: self.checked,
                    text: self.text.clone(),
                    enabled: self.enabled,
                    icon: clone_opt_icon(&self.icon),
                    accel: parsed,
                },
            );
            k = k + 1;
        }
        self.bindings = nb;
        proof {
            let ov = node_view(*old(self));
            let target = mat_fresh(ov, keys@);
            assert(node_view(*self).bindings =~= target.bindings);
            assert(node_view(*self).children =~= target.children);
            assert(node_view(*self) =~= target);
        }
    }

    /// The surface keys this node is currently bound to, in order.
    #[verifier::loop_isolation(false)]
    pub fn binding_surfaces_exec(&self) -> (r: Vec<u32>)
        ensures
            r@ == self@.binding_surfaces(),
    {
        let m = self.bindings.len();
        let mut r: Vec<u32> = Vec::new();
        let mut k: usize = 0;
        while k < m
            invariant
                k <= m,
                r@.len() == k,
                forall|j: int| 0 <= j < k ==> r@[j] == self.bindings@[j].surface,
            decreases m - k,
        {
            r.push(self.bindings[k].surface);
            k = k + 1;
        }
        proof {
            assert(r@ =~= node_view(*self).bindings.map_values(|b: BView| b.surface));
        }
        r
    }
}

impl MenuChild {
    /// Add `item` to this submenu's canonical child list, first fanning the
    /// same structural change out to every surface currently showing this
    /// submenu: the new child's subtree is materialized onto each of them.
    ///
    /// A predefined subtype with no native form here is silently skipped.
    /// If this submenu is shown anywhere and the new item's subtree holds an
    /// accelerator with no platform representation, the insertion fails with
    /// `AcceleratorParseError` and nothing changes.
    #[verifier::loop_isolation(false)]
    pub fn add_menu_item(&mut self, item: MenuChild, op: AddOp) -> (r: Result<(), Error>)
        requires
            old(self)@.item_type is Submenu,
            op matches AddOp::Insert(p) ==> p <= old(self)@.children.len(),
        ensures
            predefined_skip(item@) ==> r == Ok::<(), Error>(()) && final(self)@ == old(self)@,
            !predefined_skip(item@) && old(self)@.bindings.len() > 0 && !item@.accels_ok() ==> r
                == Err::<(), Error>(Error::AcceleratorParseError) && final(self)@ == old(self)@,
            !predefined_skip(item@) && (old(self)@.bindings.len() == 0 || item@.accels_ok())
                ==> r == Ok::<(), Error>(()) && final(self)@ == (NodeView {
                children: old(self)@.children.insert(
                    pos_of(op, old(self)@.children.len()),
                    mat_fresh(item@, old(self)@.binding_surfaces()),
                ),
                ..old(self)@
            }),
    {
        let skip = match item.item_type {
            MenuItemType::Predefined => {
                match item.predefined_item_type {
                    PredefinedMenuItemType::Separator => false,
                    PredefinedMenuItemType::Copy => false,
                    PredefinedMenuItemType::Cut => false,
                    PredefinedMenuItemType::Paste => false,
                    PredefinedMenuItemType::SelectAll => false,
                    PredefinedMenuItemType::About => false,
                    _ => true,
                }
            },
            _ => false,
        };
        if skip {
            return Ok(());
        }
        if self.bindings.len() > 0 {
            if !item.accels_ok_exec() {
                return Err(Error::AcceleratorParseError);
            }
        }
        let keys = self.binding_surfaces_exec();
        let mut it = item;
        it.materialize_fresh(&keys);
        let ghost pos = pos_of(op, old(self)@.children.len());
        match op {
            AddOp::Append => self.children.push(it),
            AddOp::Insert(p) => self.children.insert(p, it),
        }
        proof {
            let ov = node_view(*old(self));
            let target = NodeView {
                children: ov.children.insert(pos, mat_fresh(item@, ov.binding_surfaces())),
                ..ov
            };
            assert(node_view(*self).children =~= target.children);
            assert(node_view(*self).bindings =~= target.bindings);
            assert(node_view(*self) =~= target);
        }
        Ok(())
    }

    /// Remove the direct child carrying `id` from this composite: first the
    /// whole removed subtree's native bindings are torn down on every
    /// surface showing it, then the canonical list entry is removed.  The
    /// torn-down node is handed back.
    ///
    /// Fails with `NotAChildOfThisMenu`, changing nothing, exactly when no
    /// direct child carries `id`.
    #[verifier::loop_isolation(false)]
    pub fn remove(&mut self, id: u32) -> (r: Result<MenuChild, Error>)
        ensures
            !has_child(old(self)@.children, id) ==> r is Err && final(self)@ == old(self)@,
            !has_child(old(self)@.children, id) ==> (r matches Err(e) && e
                == Error::NotAChildOfThisMenu),
            has_child(old(self)@.children, id) ==> (match r {
                Ok(c) => c@ == old(self)@.children[child_index(old(self)@.children, id)].strip()
                    && final(self)@ == (NodeView {
                    children: old(self)@.children.remove(child_index(old(self)@.children, id)),
                    ..old(self)@
                }),
                Err(_) => false,
            }),
            // with distinct direct-child identifiers (as one counter
            // guarantees), the removed identifier is gone from the
            // canonical list
            has_child(old(self)@.children, id) && distinct_child_ids(old(self)@.children)
                ==> !has_child(final(self)@.children, id),
    {
        let n = self.children.len();
        let mut i: usize = 0;
        while i < n
            invariant
                i <= n,
                n == self.children@.len(),
                *self == *old(self),
                forall|j: int| 0 <= j < i ==> (#[trigger] self.children@[j]).id != id,
            decreases n - i,
        {
            let hit = self.children[i].id == id;
            if hit {
                let mut c = self.children.remove(i);
                c.strip_bindings();
                proof {
                    let ov = node_view(*old(self));
                    assert(ov.children[i as int] == node_view(old(self).children@[i as int]));
                    assert(has_child(ov.children, id));
                    lemma_child_index(ov.children, id);
                    let ci = child_index(ov.children, id);
                    assert forall|j: int| 0 <= j < i implies ov.children[j].id != id by {
                        assert(ov.children[j] == node_view(old(self).children@[j]));
                    }
                    assert(ci == i) by {
                        if ci < i {
                            assert(ov.children[ci].id == id);
                        }
                        if ci > i {
                            assert(ov.children[i as int].id != id);
                        }
                    }
                    let target = NodeView { children: ov.children.remove(i as int), ..ov };
                    assert(node_view(*self).children =~= target.children);
                    assert(node_view(*self).bindings =~= target.bindings);
                    assert(node_view(*self) =~= target);
                    if distinct_child_ids(ov.children) && has_child(node_view(*self).children, id) {
                        let rest = node_view(*self).children;
                        let j = choose|j: int| 0 <= j < rest.len() && (#[trigger] rest[j]).id == id;
                        let k: int = if j < i {
                            j
                        } else {
                            j + 1
                        };
                        assert(rest[j] == ov.children[k]);
                        assert(ov.children[k].id == id);
                        assert(ov.children[i as int].id == id);
                        assert(k != i);
                        assert(false);
                    }
                }
                return Ok(c);
            }
            i = i + 1;
        }
        proof {
            let ov = node_view(*old(self));
            assert(!has_child(ov.children, id)) by {
                if has_child(ov.children, id) {
                    let j = choose|j: int|
                        0 <= j < ov.children.len() && (#[trigger] ov.children[j]).id == id;
                    assert(ov.children[j] == node_view(old(self).children@[j]));
                }
            }
        }
        Err(Error::NotAChildOfThisMenu)
    }
}

/// The view of an optional icon.
pub open spec fn icon_view(i: Option<Icon>) -> Option<IconView> {
    match i {
        Option::Some(ic) => Option::Some(ic@),
        Option::None => Option::None,
    }
}

impl MenuChild {
    /// The icon change, addressed by identifier.
    #[verifier::loop_isolation(false)]
    pub fn update_icon(&mut self, id: u32, icon: &Option<Icon>) -> (found: bool)
        ensures
            final(self)@ == vupdate(old(self)@, id, set_icon_f(icon_view(*icon))),
            found == old(self)@.contains_id(id),
        decreases *old(self),
    {
        if self.id == id {
            let ic = clone_opt_icon(icon);
            self.set_icon(ic);
            true
        } else {
            let n = self.children.len();
            let mut i: usize = 0;
            let mut found = false;
            let mut tmp = MenuChild::placeholder_node();
            while i < n
                invariant
                    i <= n,
                    self.children@.len() == n,
                    self.id == old(self).id,
                    self.item_type == old(self).item_type,
                    self.predefined_item_type == old(self).predefined_item_type,
                    self.text == old(self).text,
                    self.enabled == old(self).enabled,
                    self.checked == old(self).checked,
                    self.syncing == old(self).syncing,
                    self.icon == old(self).icon,
                    self.accelerator == old(self).accelerator,
                    self.parsed_accelerator == old(self).parsed_accelerator,
                    self.bindings == old(self).bindings,
                    forall|j: int| i <= j < n ==> self.children@[j] == old(self).children@[j],
                    forall|j: int|
                        0 <= j < i ==> node_view(#[trigger] self.children@[j]) == vupdate(
                            node_view(old(self).children@[j]),
                            id,
                            set_icon_f(icon_view(*icon)),
                        ),
                    found == exists|j: int|
                        0 <= j < i && (#[trigger] node_view(
                            old(self).children@[j],
                        )).contains_id(id),
                decreases n - i,
            {
                self.children.set_and_swap(i, &mut tmp);
                proof {
                    assert(tmp == old(self).children@[i as int]);
                    assert(decreases_to!(*old(self) => old(self).children));
                    assert(decreases_to!(old(self).children => old(self).children@));
                    assert(decreases_to!(old(self).children@ => old(self).children@[i as int]));
                    assert(decreases_to!(*old(self) => tmp));
                }
                let f1 = tmp.update_icon(id, icon);
                self.children.set_and_swap(i, &mut tmp);
                proof {
                    if f1 {
                        assert(node_view(old(self).children@[i as int]).contains_id(id));
                    }
                }
                found = found || f1;
                i = i + 1;
            }
            proof {
                let f = set_icon_f(icon_view(*icon));
                let ov = node_view(*old(self));
                let target = vupdate(ov, id, f);
                assert(node_view(*self).bindings =~= target.bindings);
                assert(node_view(*self).children =~= target.children);
                assert(node_view(*self) =~= target);
                if found {
                    let j = choose|j: int|
                        0 <= j < n && (#[trigger] node_view(old(self).children@[j])).contains_id(id);
                    assert(ov.children[j].contains_id(id));
                    assert(ov.contains_id(id));
                } else {
                    assert(!ov.contains_id(id)) by {
                        if ov.contains_id(id) {
                            let j = choose|j: int|
                                0 <= j < ov.children.len() && (#[trigger] ov.children[j]).contains_id(
                                    id,
                                );
                            assert(node_view(old(self).children@[j]).contains_id(id));
                        }
                    }
                }
            }
            found
        }
    }
}

fn clone_bytes(v: &Vec<u8>) -> (r: Vec<u8>)
    ensures
        r@ == v@,
{
    let n = v.len();
    let mut r: Vec<u8> = Vec::new();
    let mut i: usize = 0;
    #[verifier::loop_isolation(false)]
    while i < n
        invariant
            i <= n,
            r@.len() == i,
            forall|j: int| 0 <= j < i ==> r@[j] == v@[j],
        decreases n - i,
    {
        r.push(v[i]);
        i = i + 1;
    }
    proof {
        assert(r@ =~= v@);
    }
    r
}

/// A copy of an optional icon, pixel for pixel.
fn clone_opt_icon(i: &Option<Icon>) -> (r: Option<Icon>)
    ensures
        icon_view(r) == icon_view(*i),
{
    match i {
        Some(ic) => {
            let c = Icon { rgba: clone_bytes(&ic.rgba), width: ic.width, height: ic.height };
            proof {
                assert(c@ =~= ic@);
            }
            Some(c)
        },
        None => None,
    }
}

impl MenuChild {
    /// A deep copy of this subtree, native bindings included.
    #[verifier::loop_isolation(false)]
    pub fn clone_node(&self) -> (r: MenuChild)
        ensures
            r@ == self@,
        decreases *self,
    {
        let m = self.bindings.len();
        let mut nb: Vec<Binding> = Vec::new();
        let mut k: usize = 0;
        while k < m
            invariant
                k <= m,
                nb@.len() == k,
                forall|j: int| 0 <= j < k ==> (#[trigger] nb@[j])@ == self.bindings@[j]@,
            decreases m - k,
        {
            let b = &self.bindings[k];
            nb.push(
                Binding {
                    surface: b.surface,
                    checked: b.checked,
                    text: b.text.clone(),
                    enabled: b.enabled,
                    icon: clone_opt_icon(&b.icon),
                    accel: b.accel,
                },
            );
            k = k + 1;
        }
        let n = self.children.len();
        let mut nc: Vec<MenuChild> = Vec::new();
        let mut i: usize = 0;
        while i < n
            invariant
                i <= n,
                nc@.len() == i,
                forall|j: int|
                    0 <= j < i ==> node_view(#[trigger] nc@[j]) == node_view(self.children@[j]),
            decreases n - i,
        {
            let c = &self.children[i];
            proof {
                assert(decreases_to!(*self => self.children));
                assert(decreases_to!(self.children => self.children@));
                assert(decreases_to!(self.children@ => self.children@[i as int]));
                assert(decreases_to!(*self => *c));
            }
            nc.push(c.clone_node());
            i = i + 1;
        }
        let icon = match &self.icon {
            Some(ic) => Some(Icon { rgba: clone_bytes(&ic.rgba), width: ic.width, height: ic.height }),
            None => None,
        };
        let r = MenuChild {
            id: self.id,
            item_type: self.item_type,
            predefined_item_type: self.predefined_item_type,
            text: self.text.clone(),
            enabled: self.enabled,
            checked: self.checked,
            syncing: self.syncing,
            icon,
            accelerator: self.accelerator,
            parsed_accelerator: self.parsed_accelerator,
            bindings: nb,
            children: nc,
        };
        proof {
            assert(node_view(r).bindings =~= node_view(*self).bindings);
            assert(node_view(r).children =~= node_view(*self).children);
            if node_view(*self).icon is Some {
                assert(node_view(r).icon->0 =~= node_view(*self).icon->0);
            }
            assert(node_view(r) =~= node_view(*self));
        }
        r
    }

    /// The structural insertion, addressed by identifier: at the composite
    /// of this subtree carrying `id`, a copy of `item` is materialized onto
    /// exactly the surfaces showing that composite and placed at the
    /// operation's position.  Returns whether `id` occurs.
    #[verifier::loop_isolation(false)]
    pub fn add_to(&mut self, id: u32, item: &MenuChild, op: AddOp) -> (found: bool)
        requires
            old(self)@.holds_at(id, is_submenu_p()),
            old(self)@.holds_at(id, insert_ok_p(op)),
        ensures
            final(self)@ == vupdate(old(self)@, id, add_child_f(item@, op)),
            found == old(self)@.contains_id(id),
        decreases *old(self),
    {
        if self.id == id {
            proof {
                assert((is_submenu_p())(node_view(*self)));
                assert((insert_ok_p(op))(node_view(*self)));
            }
            let keys = self.binding_surfaces_exec();
            let mut it = item.clone_node();
            it.materialize_fresh(&keys);
            match op {
                AddOp::Append => self.children.push(it),
                AddOp::Insert(p) => self.children.insert(p, it),
            }
            proof {
                let ov = node_view(*old(self));
                let target = (add_child_f(item@, op))(ov);
                assert(node_view(*self).children =~= target.children);
                assert(node_view(*self).bindings =~= target.bindings);
                assert(node_view(*self) =~= target);
            }
            true
        } else {
            let n = self.children.len();
            let mut i: usize = 0;
            let mut found = false;
            let mut tmp = MenuChild::placeholder_node();
            while i < n
                invariant
                    i <= n,
                    self.children@.len() == n,
                    self.id == old(self).id,
                    self.item_type == old(self).item_type,
                    self.predefined_item_type == old(self).predefined_item_type,
                    self.text == old(self).text,
                    self.enabled == old(self).enabled,
                    self.checked == old(self).checked,
                    self.syncing == old(self).syncing,
                    self.icon == old(self).icon,
                    self.accelerator == old(self).accelerator,
                    self.parsed_accelerator == old(self).parsed_accelerator,
                    self.bindings == old(self).bindings,
                    forall|j: int| i <= j < n ==> self.children@[j] == old(self).children@[j],
                    forall|j: int|
                        0 <= j < i ==> node_view(#[trigger] self.children@[j]) == vupdate(
                            node_view(old(self).children@[j]),
                            id,
                            add_child_f(item@, op),
                        ),
                    found == exists|j: int|
                        0 <= j < i && (#[trigger] node_view(
                            old(self).children@[j],
                        )).contains_id(id),
                decreases n - i,
            {
                self.children.set_and_swap(i, &mut tmp);
                proof {
                    assert(tmp == old(self).children@[i as int]);
                    assert(decreases_to!(*old(self) => old(self).children));
                    assert(decreases_to!(old(self).children => old(self).children@));
                    assert(decreases_to!(old(self).children@ => old(self).children@[i as int]));
                    assert(decreases_to!(*old(self) => tmp));
                    assert(node_view(old(self).children@[i as int]) == node_view(
                        *old(self),
                    ).children[i as int]);
                    assert(node_view(tmp).holds_at(id, is_submenu_p()));
                    assert(node_view(tmp).holds_at(id, insert_ok_p(op)));
                }
                let f1 = tmp.add_to(id, item, op);
                self.children.set_and_swap(i, &mut tmp);
                proof {
                    if f1 {
                        assert(node_view(old(self).children@[i as int]).contains_id(id));
                    }
                }
                found = found || f1;
                i = i + 1;
            }
            proof {
                let f = add_child_f(item@, op);
                let ov = node_view(*old(self));
                let target = vupdate(ov, id, f);
                assert(node_view(*self).bindings =~= target.bindings);
                assert(node_view(*self).children =~= target.children);
                assert(node_view(*self) =~= target);
                if found {
                    let j = choose|j: int|
                        0 <= j < n && (#[trigger] node_view(old(self).children@[j])).contains_id(id);
                    assert(ov.children[j].contains_id(id));
                    assert(ov.contains_id(id));
                } else {
                    assert(!ov.contains_id(id)) by {
                        if ov.contains_id(id) {
                            let j = choose|j: int|
                                0 <= j < ov.children.len() && (#[trigger] ov.children[j]).contains_id(
                                    id,
                                );
                            assert(node_view(old(self).children@[j]).contains_id(id));
                        }
                    }
                }
            }
            found
        }
    }

    /// The structural removal, addressed by identifier: at the composite
    /// of this subtree carrying `id`, the direct child carrying `cid` is
    /// removed, its whole subtree's native handles with it.  `r.0` says
    /// whether `id` occurs; `r.1` whether a child was removed.
    #[verifier::loop_isolation(false)]
    pub fn remove_at(&mut self, id: u32, cid: u32) -> (r: (bool, bool))
        ensures
            final(self)@ == vupdate(old(self)@, id, rm_child_f(cid)),
            r.0 == old(self)@.contains_id(id),
            r.1 == !old(self)@.holds_at(id, no_child_p(cid)),
        decreases *old(self),
    {
        if self.id == id {
            let res = self.remove(cid);
            let removed = res.is_ok();
            proof {
                let ov = node_view(*old(self));
                let target = (rm_child_f(cid))(ov);
                if has_child(ov.children, cid) {
                    assert(node_view(*self) =~= target);
                } else {
                    assert(node_view(*self) =~= target);
                }
                assert(removed == !(no_child_p(cid))(ov));
            }
            (true, removed)
        } else {
            let n = self.children.len();
            let mut i: usize = 0;
            let mut found = false;
            let mut removed = false;
            let mut tmp = MenuChild::placeholder_node();
            while i < n
                invariant
                    i <= n,
                    self.children@.len() == n,
                    self.id == old(self).id,
                    self.item_type == old(self).item_type,
                    self.predefined_item_type == old(self).predefined_item_type,
                    self.text == old(self).text,
                    self.enabled == old(self).enabled,
                    self.checked == old(self).checked,
                    self.syncing == old(self).syncing,
                    self.icon == old(self).icon,
                    self.accelerator == old(self).accelerator,
                    self.parsed_accelerator == old(self).parsed_accelerator,
                    self.bindings == old(self).bindings,
                    forall|j: int| i <= j < n ==> self.children@[j] == old(self).children@[j],
                    forall|j: int|
                        0 <= j < i ==> node_view(#[trigger] self.children@[j]) == vupdate(
                            node_view(old(self).children@[j]),
                            id,
                            rm_child_f(cid),
                        ),
                    found == exists|j: int|
                        0 <= j < i && (#[trigger] node_view(
                            old(self).children@[j],
                        )).contains_id(id),
                    removed == exists|j: int|
                        0 <= j < i && !(#[trigger] node_view(old(self).children@[j])).holds_at(
                            id,
                            no_child_p(cid),
                        ),
                decreases n - i,
            {
                self.children.set_and_swap(i, &mut tmp);
                proof {
                    assert(tmp == old(self).children@[i as int]);
                    assert(decreases_to!(*old(self) => old(self).children));
                    assert(decreases_to!(old(self).children => old(self).children@));
                    assert(decreases_to!(old(self).children@ => old(self).children@[i as int]));
                    assert(decreases_to!(*old(self) => tmp));
                }
                let r1 = tmp.remove_at(id, cid);
                self.children.set_and_swap(i, &mut tmp);
                proof {
                    if r1.0 {
                        assert(node_view(old(self).children@[i as int]).contains_id(id));
                    }
                    if r1.1 {
                        assert(!node_view(old(self).children@[i as int]).holds_at(
                            id,
                            no_child_p(cid),
                        ));
                    }
                }
                found = found || r1.0;
                removed = removed || r1.1;
                i = i + 1;
            }
            proof {
                let f = rm_child_f(cid);
                let ov = node_view(*old(self));
                let target = vupdate(ov, id, f);
                assert(node_view(*self).bindings =~= target.bindings);
                assert(node_view(*self).children =~= target.children);
                assert(node_view(*self) =~= target);
                if found {
                    let j = choose|j: int|
                        0 <= j < n && (#[trigger] node_view(old(self).children@[j])).contains_id(id);
                    assert(ov.children[j].contains_id(id));
                    assert(ov.contains_id(id));
                } else {
                    assert(!ov.contains_id(id)) by {
                        if ov.contains_id(id) {
                            let j = choose|j: int|
                                0 <= j < ov.children.len() && (#[trigger] ov.children[j]).contains_id(
                                    id,
                                );
                            assert(node_view(old(self).children@[j]).contains_id(id));
                        }
                    }
                }
                if removed {
                    let j = choose|j: int|
                        0 <= j < n && !(#[trigger] node_view(old(self).children@[j])).holds_at(
                            id,
                            no_child_p(cid),
                        );
                    assert(!ov.children[j].holds_at(id, no_child_p(cid)));
                    assert(!ov.holds_at(id, no_child_p(cid)));
                } else {
                    assert(ov.holds_at(id, no_child_p(cid))) by {
                        assert forall|j: int| 0 <= j < ov.children.len() implies (
                        #[trigger] ov.children[j]).holds_at(id, no_child_p(cid)) by {
                            assert(ov.children[j] == node_view(old(self).children@[j]));
                        }
                    }
                }
            }
            (found, removed)
        }
    }
}

/// The standard display text of each predefined subtype.
pub open spec fn predefined_text(t: PredefinedMenuItemType) -> Seq<char> {
    match t {
        PredefinedMenuItemType::Separator => ""@,
        PredefinedMenuItemType::Copy => "&Copy"@,
        PredefinedMenuItemType::Cut => "Cu&t"@,
        PredefinedMenuItemType::Paste => "&Paste"@,
        PredefinedMenuItemType::SelectAll => "Select &All"@,
        PredefinedMenuItemType::About => "&About"@,
        PredefinedMenuItemType::Minimize => "&Minimize"@,
        PredefinedMenuItemType::Quit => "&Quit"@,
    }
}

/// The fixed, non-overridable accelerator hint of each predefined subtype.
pub open spec fn predefined_accelerator(t: PredefinedMenuItemType) -> Option<Accelerator> {
    match t {
        PredefinedMenuItemType::Copy => Option::Some(
            Accelerator {
                mods: crate::accelerator::Modifiers {
                    shift: false,
                    ctrl: true,
                    alt: false,
                    meta: false,
                },
                key: crate::accelerator::Code::KeyC,
            },
        ),
        PredefinedMenuItemType::Cut => Option::Some(
            Accelerator {
                mods: crate::accelerator::Modifiers {
                    shift: false,
                    ctrl: true,
                    alt: false,
                    meta: false,
                },
                key: crate::accelerator::Code::KeyX,
            },
        ),
        PredefinedMenuItemType::Paste => Option::Some(
            Accelerator {
                mods: crate::accelerator::Modifiers {
                    shift: false,
                    ctrl: true,
                    alt: false,
                    meta: false,
                },
                key: crate::accelerator::Code::KeyV,
            },
        ),
        PredefinedMenuItemType::SelectAll => Option::Some(
            Accelerator {
                mods: crate::accelerator::Modifiers {
                    shift: false,
                    ctrl: true,
                    alt: false,
                    meta: false,
                },
                key: crate::accelerator::Code::KeyA,
            },
        ),
        _ => Option::None,
    }
}

/// The key sequence a clipboard-like predefined item synthesizes when
/// activated, in the injection tool's notation.
pub open spec fn xdo_keys_spec(t: PredefinedMenuItemType) -> Seq<char> {
    match t {
        PredefinedMenuItemType::Copy => "ctrl+c"@,
        PredefinedMenuItemType::Cut => "ctrl+X"@,
        PredefinedMenuItemType::Paste => "ctrl+v"@,
        _ => "ctrl+a"@,
    }
}

impl PredefinedMenuItemType {
    /// The key sequence this item synthesizes on activation.  Only the
    /// clipboard subtypes and select-all synthesize one.
    pub fn xdo_keys(&self) -> (r: &'static str)
        requires
            self is Copy || self is Cut || self is Paste || self is SelectAll,
        ensures
            r@ == xdo_keys_spec(*self),
    {
        match self {
            PredefinedMenuItemType::Copy => "ctrl+c",
            PredefinedMenuItemType::Cut => "ctrl+X",
            PredefinedMenuItemType::Paste => "ctrl+v",
            _ => "ctrl+a",
        }
    }
}

fn predefined_text_exec(t: PredefinedMenuItemType) -> (r: String)
    ensures
        r@ == predefined_text(t),
{
    match t {
        PredefinedMenuItemType::Separator => String::from_str(""),
        PredefinedMenuItemType::Copy => String::from_str("&Copy"),
        PredefinedMenuItemType::Cut => String::from_str("Cu&t"),
        PredefinedMenuItemType::Paste => String::from_str("&Paste"),
        PredefinedMenuItemType::SelectAll => String::from_str("Select &All"),
        PredefinedMenuItemType::About => String::from_str("&About"),
        PredefinedMenuItemType::Minimize => String::from_str("&Minimize"),
        PredefinedMenuItemType::Quit => String::from_str("&Quit"),
    }
}

fn predefined_accelerator_exec(t: PredefinedMenuItemType) -> (r: Option<Accelerator>)
    ensures
        r == predefined_accelerator(t),
{
    let ctrl = crate::accelerator::Modifiers { shift: false, ctrl: true, alt: false, meta: false };
    match t {
        PredefinedMenuItemType::Copy => Some(
            Accelerator { mods: ctrl, key: crate::accelerator::Code::KeyC },
        ),
        PredefinedMenuItemType::Cut => Some(
            Accelerator { mods: ctrl, key: crate::accelerator::Code::KeyX },
        ),
        PredefinedMenuItemType::Paste => Some(
            Accelerator { mods: ctrl, key: crate::accelerator::Code::KeyV },
        ),
        PredefinedMenuItemType::SelectAll => Some(
            Accelerator { mods: ctrl, key: crate::accelerator::Code::KeyA },
        ),
        _ => None,
    }
}

} // verus!
