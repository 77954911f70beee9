//! A menu-tree synchronization engine.
//!
//! An application describes a menu once, as a logical tree of [`child::MenuChild`]
//! nodes, and projects that single description onto one or more native surfaces
//! (window menu bars, tray menus, context menus) at the same time.  The engine
//! keeps every projection consistent as the tree is mutated at runtime: every
//! structural edit, text or enabled change, checked-state write and accelerator
//! change is fanned out to each attached surface, and native toggle callbacks
//! are folded back into the canonical state behind a reentrancy guard.
//!
//! The native widget toolkit itself is an external collaborator: this crate
//! models each native widget as a [`child::Binding`] (one per node and surface)
//! and verifies that the modelled projections always mirror the canonical tree.

pub mod accelerator;
pub mod child;
pub mod error;
pub mod events;
pub mod items;
pub mod laws;
pub mod menu;
pub mod model;
pub mod util;

pub use accelerator::{Accelerator, Code, Modifiers, ParsedAccel};
pub use child::{Binding, Icon, MenuChild, MenuItemType, PredefinedMenuItemType};
pub use error::Error;
pub use events::{EventChannel, MenuEvent};
pub use items::check::CheckMenuItem;
pub use menu::{Menu, SurfaceEntry};
pub use util::{AddOp, Counter};
