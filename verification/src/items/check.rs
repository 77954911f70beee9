//! The typed handle for a check menu item.

use vstd::prelude::*;

use crate::accelerator::Accelerator;
use crate::child::{fresh_view, MenuChild, MenuItemType, PredefinedMenuItemType};
use crate::error::Error;
use crate::model::{
    accel_unrepresentable, set_accel_f, set_checked_f, set_enabled_f, set_text_f, NodeView,
};
use crate::util::Counter;

verus! {

/// A check menu item inside a menu or submenu: it carries a text and a
/// check mark that toggles between a checked and an unchecked state.
///
/// The wrapped node is a `Check` node; move it into a menu with
/// `into_child` to have the checked state mirrored onto every surface the
/// menu is attached to.
pub struct CheckMenuItem(pub MenuChild);

impl View for CheckMenuItem {
    type V = NodeView;

    open spec fn view(&self) -> NodeView {
        self.0@
    }
}

impl CheckMenuItem {
    /// Create a new check menu item, drawing its identifier from `counter`.
    ///
    /// `text` may contain one `&` before a character to mark that character
    /// as the item's mnemonic; `&&` displays a plain `&`.
    pub fn new(
        counter: &mut Counter,
        text: &str,
        enabled: bool,
        checked: bool,
        accelerator: Option<Accelerator>,
    ) -> (r: CheckMenuItem)
        requires
            old(counter).spec_value() < u32::MAX,
        ensures
            r@ == fresh_view(
                old(counter).spec_value(),
                MenuItemType::Check,
                PredefinedMenuItemType::Separator,
                text@,
                enabled,
                checked,
                Option::None,
                accelerator,
            ),
            final(counter).spec_value() == old(counter).spec_value() + 1,
    {
        CheckMenuItem(MenuChild::new_check(counter, text, enabled, checked, accelerator))
    }

    /// The unique identifier associated with this item.
    pub fn id(&self) -> (r: u32)
        ensures
            r == self@.id,
    {
        self.0.id()
    }

    /// The canonical text of this item.
    pub fn text(&self) -> (r: String)
        ensures
            r@ == self@.text,
    {
        self.0.text()
    }

    /// Set the text of this item, on the canonical node and on every
    /// surface currently showing it.
    pub fn set_text(&mut self, text: &str)
        ensures
            final(self)@ == set_text_f(text@)(old(self)@),
    {
        self.0.set_text(text)
    }

    /// Whether this item is enabled.
    pub fn is_enabled(&self) -> (r: bool)
        ensures
            r == self@.enabled,
    {
        self.0.is_enabled()
    }

    /// Enable or disable this item, on the canonical node and on every
    /// surface currently showing it.
    pub fn set_enabled(&mut self, enabled: bool)
        ensures
            final(self)@ == set_enabled_f(enabled)(old(self)@),
    {
        self.0.set_enabled(enabled)
    }

    /// Replace this item's accelerator; see `MenuChild::set_accelerator`.
    ///
    /// Fails with `AcceleratorParseError`, changing nothing, exactly when a
    /// spec is given whose key has no platform representation.
    pub fn set_accelerator(&mut self, accelerator: Option<Accelerator>) -> (r: Result<(), Error>)
        requires
            old(self)@.item_type is Check,
        ensures
            accel_unrepresentable(accelerator) ==> r == Err::<(), Error>(
                Error::AcceleratorParseError,
            ) && final(self)@ == old(self)@,
            !accel_unrepresentable(accelerator) ==> r == Ok::<(), Error>(()) && final(self)@
                == set_accel_f(accelerator)(old(self)@),
    {
        self.0.set_accelerator(accelerator)
    }

    /// The canonical checked state of this item.
    pub fn is_checked(&self) -> (r: bool)
        ensures
            r == self@.checked,
    {
        self.0.is_checked()
    }

    /// Check or uncheck this item: the canonical state and every native
    /// projection converge to the value, silently (no event is produced).
    pub fn set_checked(&mut self, checked: bool)
        ensures
            final(self)@ == set_checked_f(checked)(old(self)@),
    {
        self.0.set_checked(checked)
    }

    /// The underlying tree node, for insertion into a menu or submenu.
    pub fn into_child(self) -> (r: MenuChild)
        ensures
            r@ == self@,
    {
        self.0
    }
}

} // verus!
