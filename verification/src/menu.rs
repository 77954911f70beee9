//! The root menu: the canonical child list, the set of attached surfaces,
//! and the operations that keep every surface's native projection
//! structurally identical to the canonical tree.

use vstd::prelude::*;

use vstd::pervasive::VecAdditionalExecFns;

use crate::accelerator::Accelerator;
use crate::child::{icon_view, node_view, views_of, Icon, MenuChild, MenuItemType, PredefinedMenuItemType};
use crate::error::Error;
use crate::events::{EventChannel, MenuEvent};
use crate::model::{
    accel_unrepresentable, add_child_f, child_index, distinct_child_ids, has_child, insert_ok_p,
    is_check_p, is_submenu_p, key_ne,
    lemma_absent_holds, lemma_child_index, lemma_mat_add, lemma_mat_fresh_wf,
    lemma_remove_filter_unique, lemma_unmat, lemma_vupdate_add, lemma_vupdate_leaf,
    lemma_vupdate_rm, mat_add, mat_fresh, no_child_p, not_predefined_p, pos_of, predefined_skip,
    rm_child_f, seq_contains_id, seq_holds_at, set_accel_f, set_checked_f, set_enabled_f,
    set_icon_f, set_text_f, toggle_events, toggle_events_seq, toggle_f, unmat, vupdate,
    vupdate_seq, NodeView,
};
use crate::util::{AddOp, Counter};

verus! {

/// The view of one attached surface: its key and whether its native
/// container (a menu bar, a context menu) is currently visible.
#[verifier::ext_equal]
pub ghost struct SurfView {
    pub key: u32,
    pub visible: bool,
}

/// The view of a whole menu.
#[verifier::ext_equal]
pub ghost struct MenuView {
    pub id: u32,
    /// The surface key reserved for this menu's dedicated context menu.
    pub context_id: u32,
    pub surfaces: Seq<SurfView>,
    pub children: Seq<NodeView>,
}

/// One attached surface of a menu.
pub struct SurfaceEntry {
    pub key: u32,
    pub visible: bool,
}

impl View for SurfaceEntry {
    type V = SurfView;

    open spec fn view(&self) -> SurfView {
        SurfView { key: self.key, visible: self.visible }
    }
}

/// A root menu that is projected onto any number of native surfaces at
/// once.
///
/// The central invariant, `MenuView::wf`, ties the two sides together:
/// every node of the canonical tree is bound to exactly the surfaces this
/// menu is attached to, in the same order, so each surface's native
/// projection always mirrors the canonical child list.
pub struct Menu {
    pub id: u32,
    pub context_id: u32,
    pub surfaces: Vec<SurfaceEntry>,
    pub children: Vec<MenuChild>,
}

impl View for Menu {
    type V = MenuView;

    open spec fn view(&self) -> MenuView {
        MenuView {
            id: self.id,
            context_id: self.context_id,
            surfaces: Seq::new(self.surfaces@.len(), |i: int| self.surfaces@[i]@),
            children: Seq::new(self.children@.len(), |i: int| node_view(self.children@[i])),
        }
    }
}

impl MenuView {
    /// The attached surface keys, in attachment order.
    pub open spec fn surface_keys(self) -> Seq<u32> {
        self.surfaces.map_values(|s: SurfView| s.key)
    }

    /// Whether `key` is attached.
    pub open spec fn attached(self, key: u32) -> bool {
        exists|i: int| 0 <= i < self.surfaces.len() && (#[trigger] self.surfaces[i]).key == key
    }

    /// Whether `key` is attached and its native container visible.
    pub open spec fn visible_on(self, key: u32) -> bool {
        exists|i: int|
            0 <= i < self.surfaces.len() && (#[trigger] self.surfaces[i]).key == key
                && self.surfaces[i].visible
    }

    /// Well-formedness: every node of the tree well-formed and bound to
    /// exactly this menu's surfaces, and no surface attached twice.
    pub open spec fn wf(self) -> bool {
        &&& forall|i: int| 0 <= i < self.children.len() ==> (#[trigger] self.children[i]).wf()
        &&& forall|i: int|
            0 <= i < self.children.len() ==> (#[trigger] self.children[i]).keys_ok(
                self.surface_keys(),
            )
        &&& self.surface_keys().no_duplicates()
    }

    /// The canonical child identifiers, in order.
    pub open spec fn child_ids(self) -> Seq<u32> {
        self.children.map_values(|n: NodeView| n.id)
    }
}

/// The position of the surface entry with `key`, or `-1`.
pub open spec fn key_index(s: Seq<SurfView>, key: u32) -> int
    decreases s,
{
    if s.len() == 0 {
        -1
    } else if s[0].key == key {
        0
    } else if key_index(s.drop_first(), key) < 0 {
        -1
    } else {
        1 + key_index(s.drop_first(), key)
    }
}

/// `key_index` finds exactly the first entry with `key`, and `-1` exactly
/// when there is none.
pub proof fn lemma_key_index(s: Seq<SurfView>, key: u32)
    ensures
        (exists|i: int| 0 <= i < s.len() && (#[trigger] s[i]).key == key) ==> 0 <= key_index(
            s,
            key,
        ) < s.len() && s[key_index(s, key)].key == key && (forall|j: int|
            0 <= j < key_index(s, key) ==> s[j].key != key),
        !(exists|i: int| 0 <= i < s.len() && (#[trigger] s[i]).key == key) ==> key_index(s, key)
            == -1,
    decreases s.len(),
{
    if s.len() > 0 && s[0].key != key {
        lemma_key_index(s.drop_first(), key);
        if exists|i: int| 0 <= i < s.len() && (#[trigger] s[i]).key == key {
            let j = choose|j: int| 0 <= j < s.len() && (#[trigger] s[j]).key == key;
            assert(s.drop_first()[j - 1] == s[j]);
        }
        if exists|i: int|
            0 <= i < s.drop_first().len() && (#[trigger] s.drop_first()[i]).key == key {
            let j = choose|j: int|
                0 <= j < s.drop_first().len() && (#[trigger] s.drop_first()[j]).key == key;
            assert(s[j + 1] == s.drop_first()[j]);
        }
        if exists|i: int| 0 <= i < s.len() && (#[trigger] s[i]).key == key {
            let k = key_index(s.drop_first(), key);
            assert(s[1 + k] == s.drop_first()[k]);
            assert forall|j: int| 0 <= j < 1 + k implies s[j].key != key by {
                if j > 0 {
                    assert(s.drop_first()[j - 1] == s[j]);
                }
            }
        }
    }
}

impl Menu {
    /// A new, empty menu; it also reserves the surface key of its future
    /// dedicated context menu.
    pub fn new(counter: &mut Counter) -> (r: Menu)
        requires
            old(counter).spec_value() < u32::MAX - 1,
        ensures
            r@ == (MenuView {
                id: old(counter).spec_value(),
                context_id: (old(counter).spec_value() + 1) as u32,
                surfaces: Seq::empty(),
                children: Seq::empty(),
            }),
            r@.wf(),
            final(counter).spec_value() == old(counter).spec_value() + 2,
    {
        let id = counter.next();
        let context_id = counter.next();
        let r = Menu { id, context_id, surfaces: Vec::new(), children: Vec::new() };
        proof {
            assert(r@.surfaces =~= Seq::<SurfView>::empty());
            assert(r@.children =~= Seq::<NodeView>::empty());
            assert(r@.surface_keys() =~= Seq::<u32>::empty());
        }
        r
    }

    /// The unique identifier of this menu.
    pub fn id(&self) -> (r: u32)
        ensures
            r == self@.id,
    {
        self.id
    }

    /// The canonical child list, in order.
    pub fn items(&self) -> (r: &Vec<MenuChild>)
        ensures
            r == self.children,
    {
        &self.children
    }

    /// Whether `key` is attached.
    #[verifier::loop_isolation(false)]
    pub fn is_attached(&self, key: u32) -> (r: bool)
        ensures
            r == self@.attached(key),
    {
        let n = self.surfaces.len();
        let mut i: usize = 0;
        while i < n
            invariant
                i <= n,
                forall|j: int| 0 <= j < i ==> (#[trigger] self@.surfaces[j]).key != key,
            decreases n - i,
        {
            if self.surfaces[i].key == key {
                proof {
                    assert(self@.surfaces[i as int].key == key);
                }
                return true;
            }
            i = i + 1;
        }
        proof {
            if self@.attached(key) {
                let j = choose|j: int|
                    0 <= j < self@.surfaces.len() && (#[trigger] self@.surfaces[j]).key == key;
            }
        }
        false
    }

    /// Whether the native projection on `key` is currently visible.
    ///
    /// Fails with `NotInitialized` exactly when the surface key was never
    /// attached.
    #[verifier::loop_isolation(false)]
    pub fn is_visible_on(&self, key: u32) -> (r: Result<bool, Error>)
        requires
            self@.wf(),
        ensures
            !self@.attached(key) ==> r == Err::<bool, Error>(Error::NotInitialized),
            self@.attached(key) ==> r == Ok::<bool, Error>(self@.visible_on(key)),
    {
        let n = self.surfaces.len();
        let mut i: usize = 0;
        while i < n
            invariant
                i <= n,
                forall|j: int| 0 <= j < i ==> (#[trigger] self@.surfaces[j]).key != key,
            decreases n - i,
        {
            if self.surfaces[i].key == key {
                proof {
                    assert(self@.surfaces[i as int].key == key);
                    if self@.visible_on(key) {
                        let j = choose|j: int|
                            0 <= j < self@.surfaces.len() && (#[trigger] self@.surfaces[j]).key
                                == key && self@.surfaces[j].visible;
                        assert(self@.surface_keys()[j] == key);
                        assert(self@.surface_keys()[i as int] == key);
                        assert(j == i) by {
                            if j != i {
                                assert(self@.surface_keys().no_duplicates());
                            }
                        }
                    }
                }
                return Ok(self.surfaces[i].visible);
            }
            i = i + 1;
        }
        proof {
            if self@.attached(key) {
                let j = choose|j: int|
                    0 <= j < self@.surfaces.len() && (#[trigger] self@.surfaces[j]).key == key;
            }
        }
        Err(Error::NotInitialized)
    }

    /// Attach this menu to a new surface: create a native container for it,
    /// replay every current child (in order) onto that surface, and record
    /// the surface as attached and visible.
    ///
    /// Fails with `AlreadyInitialized`, changing nothing, exactly when the
    /// surface key is already attached; with `AcceleratorParseError`,
    /// changing nothing, when some node of the tree carries an accelerator
    /// that has no platform representation.
    #[verifier::loop_isolation(false)]
    pub fn attach(&mut self, key: u32) -> (r: Result<(), Error>)
        requires
            old(self)@.wf(),
        ensures
            old(self)@.attached(key) ==> r == Err::<(), Error>(Error::AlreadyInitialized)
                && final(self)@ == old(self)@,
            !old(self)@.attached(key) && !(forall|i: int|
                0 <= i < old(self)@.children.len() ==> (
                #[trigger] old(self)@.children[i]).accels_ok()) ==> r == Err::<(), Error>(
                Error::AcceleratorParseError,
            ) && final(self)@ == old(self)@,
            !old(self)@.attached(key) && (forall|i: int|
                0 <= i < old(self)@.children.len() ==> (
                #[trigger] old(self)@.children[i]).accels_ok()) ==> r == Ok::<(), Error>(())
                && final(self)@ == (MenuView {
                surfaces: old(self)@.surfaces.push(SurfView { key, visible: true }),
                children: old(self)@.children.map_values(
                    |n: NodeView| mat_add(n, key),
                ),
                ..old(self)@
            }) && final(self)@.wf(),
    {
        if self.is_attached(key) {
            return Err(Error::AlreadyInitialized);
        }
        let n = self.children.len();
        let mut i: usize = 0;
        while i < n
            invariant
                i <= n,
                *self == *old(self),
                forall|j: int| 0 <= j < i ==> (#[trigger] self@.children[j]).accels_ok(),
            decreases n - i,
        {
            let ok = self.children[i].accels_ok_exec();
            proof {
                assert(self@.children[i as int] == node_view(self.children@[i as int]));
            }
            if !ok {
                proof {
                    assert(!self@.children[i as int].accels_ok());
                }
                return Err(Error::AcceleratorParseError);
            }
            i = i + 1;
        }
        let ghost ov = self@;
        let mut k: usize = 0;
        let mut tmp = MenuChild::placeholder_node();
        while k < n
            invariant
                k <= n,
                self.children@.len() == n,
                self.id == old(self).id,
                self.context_id == old(self).context_id,
                self.surfaces == old(self).surfaces,
                forall|j: int| k <= j < n ==> self.children@[j] == old(self).children@[j],
                forall|j: int|
                    0 <= j < k ==> node_view(#[trigger] self.children@[j]) == mat_add(
                        node_view(old(self).children@[j]),
                        key,
                    ),
            decreases n - k,
        {
            self.children.set_and_swap(k, &mut tmp);
            tmp.attach_surface(key);
            self.children.set_and_swap(k, &mut tmp);
            k = k + 1;
        }
        self.surfaces.push(SurfaceEntry { key, visible: true });
        proof {
            let target = MenuView {
                surfaces: ov.surfaces.push(SurfView { key, visible: true }),
                children: ov.children.map_values(|nv: NodeView| mat_add(nv, key)),
                ..ov
            };
            assert(final(self)@.surfaces =~= target.surfaces);
            assert(final(self)@.children =~= target.children);
            assert(final(self)@ =~= target);
            // well-formedness of the result
            assert(final(self)@.surface_keys() =~= ov.surface_keys().push(key));
            assert forall|j: int|
                0 <= j < final(self)@.children.len() implies (#[trigger] self@.children[j]).wf() && final(self)@.children[j].keys_ok(
                final(self)@.surface_keys(),
            ) by {
                assert(final(self)@.children[j] == mat_add(ov.children[j], key));
                lemma_mat_add(ov.children[j], key, ov.surface_keys());
            }
            assert(final(self)@.surface_keys().no_duplicates()) by {
                let ks = ov.surface_keys().push(key);
                assert forall|p: int, q: int| 0 <= p < q < ks.len() implies ks[p] != ks[q] by {
                    if q == ks.len() - 1 {
                        assert(ks[q] == key);
                        if ks[p] == key {
                            assert(ov.surfaces[p].key == key);
                            assert(ov.attached(key));
                        }
                    }
                }
                assert(final(self)@.surface_keys() =~= ks);
            }
        }
        Ok(())
    }

    /// Detach this menu from a surface: tear down every node's native
    /// projection for that surface (the canonical tree and every other
    /// surface are untouched) and discard the surface entry.
    ///
    /// Fails with `NotInitialized`, changing nothing, exactly when the
    /// surface key is not attached.
    #[verifier::loop_isolation(false)]
    pub fn detach(&mut self, key: u32) -> (r: Result<(), Error>)
        requires
            old(self)@.wf(),
        ensures
            !old(self)@.attached(key) ==> r == Err::<(), Error>(Error::NotInitialized)
                && final(self)@ == old(self)@,
            old(self)@.attached(key) ==> r == Ok::<(), Error>(()) && final(self)@ == (MenuView {
                surfaces: old(self)@.surfaces.remove(key_index(old(self)@.surfaces, key)),
                children: old(self)@.children.map_values(|n: NodeView| unmat(n, key)),
                ..old(self)@
            }) && final(self)@.wf(),
    {
        let n = self.surfaces.len();
        let mut i: usize = 0;
        while i < n
            invariant
                i <= n,
                *self == *old(self),
                forall|j: int| 0 <= j < i ==> (#[trigger] self@.surfaces[j]).key != key,
            decreases n - i,
        {
            let hit = self.surfaces[i].key == key;
            if hit {
                proof {
                    assert(self@.surfaces[i as int].key == key);
                }
                self.surfaces.remove(i);
                let ghost ov = old(self)@;
                let m = self.children.len();
                let mut k: usize = 0;
                let mut tmp = MenuChild::placeholder_node();
                while k < m
                    invariant
                        k <= m,
                        self.children@.len() == m,
                        m == old(self).children@.len(),
                        self.id == old(self).id,
                        self.context_id == old(self).context_id,
                        self.surfaces@ == old(self).surfaces@.remove(i as int),
                        i < old(self).surfaces@.len(),
                        old(self).surfaces@[i as int].key == key,
                        forall|j: int| k <= j < m ==> self.children@[j] == old(self).children@[j],
                        forall|j: int|
                            0 <= j < k ==> node_view(#[trigger] self.children@[j]) == unmat(
                                node_view(old(self).children@[j]),
                                key,
                            ),
                    decreases m - k,
                {
                    self.children.set_and_swap(k, &mut tmp);
                    tmp.detach_surface(key);
                    self.children.set_and_swap(k, &mut tmp);
                    k = k + 1;
                }
                proof {
                    lemma_key_index(ov.surfaces, key);
                    assert forall|j: int| 0 <= j < i implies ov.surfaces[j].key != key by {
                        assert(ov.surfaces[j] == old(self).surfaces@[j]@);
                    }
                    let ki = key_index(ov.surfaces, key);
                    assert(ov.surfaces[i as int].key == key);
                    assert(ov.attached(key));
                    assert(ki == i) by {
                        if ki < i {
                            assert(ov.surfaces[ki].key == key);
                        }
                        if ki > i {
                            assert(ov.surfaces[i as int].key != key);
                        }
                    }
                    let target = MenuView {
                        surfaces: ov.surfaces.remove(i as int),
                        children: ov.children.map_values(|nv: NodeView| unmat(nv, key)),
                        ..ov
                    };
                    assert(final(self)@.surfaces =~= target.surfaces);
                    assert(final(self)@.children =~= target.children);
                    assert(final(self)@ =~= target);
                    // well-formedness of the result
                    let ks = ov.surface_keys();
                    assert(ks[i as int] == key);
                    lemma_remove_filter_unique(ks, i as int, key);
                    assert(final(self)@.surface_keys() =~= ks.remove(i as int));
                    assert forall|j: int|
                        0 <= j < final(self)@.children.len() implies (#[trigger] self@.children[j]).wf() && final(self)@.children[j].keys_ok(
                        final(self)@.surface_keys(),
                    ) by {
                        assert(final(self)@.children[j] == unmat(ov.children[j], key));
                        lemma_unmat(ov.children[j], key, ks);
                        assert(ov.children[j].keys_ok(ks));
                        assert(ks.remove(i as int) == ks.filter(key_ne(key)));
                    }
                }
                return Ok(());
            }
            i = i + 1;
        }
        proof {
            if old(self)@.attached(key) {
                let j = choose|j: int|
                    0 <= j < old(self)@.surfaces.len() && (#[trigger] old(
                        self,
                    )@.surfaces[j]).key == key;
            }
        }
        Err(Error::NotInitialized)
    }
}

impl Menu {
    /// Make the native projection on `key` visible.
    ///
    /// Fails with `NotInitialized`, changing nothing, exactly when the
    /// surface key is not attached.
    #[verifier::loop_isolation(false)]
    pub fn show_for_surface(&mut self, key: u32) -> (r: Result<(), Error>)
        requires
            old(self)@.wf(),
        ensures
            !old(self)@.attached(key) ==> r == Err::<(), Error>(Error::NotInitialized)
                && final(self)@ == old(self)@,
            old(self)@.attached(key) ==> r == Ok::<(), Error>(()) && final(self)@ == (MenuView {
                surfaces: old(self)@.surfaces.update(
                    key_index(old(self)@.surfaces, key),
                    SurfView { key, visible: true },
                ),
                ..old(self)@
            }) && final(self)@.wf(),
    {
        self.set_visible(key, true)
    }

    /// Hide the native projection on `key`.
    ///
    /// Fails with `NotInitialized`, changing nothing, exactly when the
    /// surface key is not attached.
    #[verifier::loop_isolation(false)]
    pub fn hide_for_surface(&mut self, key: u32) -> (r: Result<(), Error>)
        requires
            old(self)@.wf(),
        ensures
            !old(self)@.attached(key) ==> r == Err::<(), Error>(Error::NotInitialized)
                && final(self)@ == old(self)@,
            old(self)@.attached(key) ==> r == Ok::<(), Error>(()) && final(self)@ == (MenuView {
                surfaces: old(self)@.surfaces.update(
                    key_index(old(self)@.surfaces, key),
                    SurfView { key, visible: false },
                ),
                ..old(self)@
            }) && final(self)@.wf(),
    {
        self.set_visible(key, false)
    }

    #[verifier::loop_isolation(false)]
    fn set_visible(&mut self, key: u32, visible: bool) -> (r: Result<(), Error>)
        requires
            old(self)@.wf(),
        ensures
            !old(self)@.attached(key) ==> r == Err::<(), Error>(Error::NotInitialized)
                && final(self)@ == old(self)@,
            old(self)@.attached(key) ==> r == Ok::<(), Error>(()) && final(self)@ == (MenuView {
                surfaces: old(self)@.surfaces.update(
                    key_index(old(self)@.surfaces, key),
                    SurfView { key, visible },
                ),
                ..old(self)@
            }) && final(self)@.wf(),
    {
        let n = self.surfaces.len();
        let mut i: usize = 0;
        while i < n
            invariant
                i <= n,
                *self == *old(self),
                forall|j: int| 0 <= j < i ==> (#[trigger] self@.surfaces[j]).key != key,
            decreases n - i,
        {
            let hit = self.surfaces[i].key == key;
            if hit {
                proof {
                    assert(self@.surfaces[i as int].key == key);
                }
                self.surfaces.set(i, SurfaceEntry { key, visible });
                proof {
                    let ov = old(self)@;
                    lemma_key_index(ov.surfaces, key);
                    assert forall|j: int| 0 <= j < i implies ov.surfaces[j].key != key by {
                        assert(ov.surfaces[j] == old(self).surfaces@[j]@);
                    }
                    let ki = key_index(ov.surfaces, key);
                    assert(ov.attached(key));
                    assert(ki == i) by {
                        if ki < i {
                            assert(ov.surfaces[ki].key == key);
                        }
                        if ki > i {
                            assert(ov.surfaces[i as int].key != key);
                        }
                    }
                    let target = MenuView {
                        surfaces: ov.surfaces.update(i as int, SurfView { key, visible }),
                        ..ov
                    };
                    assert(self@.surfaces =~= target.surfaces);
                    assert(self@.children =~= target.children);
                    assert(self@ =~= target);
                    assert(self@.surface_keys() =~= ov.surface_keys());
                    assert(self@.wf());
                }
                return Ok(());
            }
            i = i + 1;
        }
        proof {
            if old(self)@.attached(key) {
                let j = choose|j: int|
                    0 <= j < old(self)@.surfaces.len() && (#[trigger] old(
                        self,
                    )@.surfaces[j]).key == key;
            }
        }
        Err(Error::NotInitialized)
    }

    /// The application-driven checked-state write, addressed by identifier:
    /// stores the canonical value and pushes it into every native
    /// projection of the node, across every attached surface.  This path
    /// produces no event.
    ///
    /// Fails with `NotAChildOfThisMenu` exactly when the identifier does
    /// not occur in the tree (the tree is then unchanged).
    #[verifier::loop_isolation(false)]
    pub fn set_checked(&mut self, id: u32, checked: bool) -> (r: Result<(), Error>)
        requires
            old(self)@.wf(),
            seq_holds_at(old(self)@.children, id, is_check_p()),
        ensures
            final(self)@ == (MenuView {
                children: vupdate_seq(old(self)@.children, id, set_checked_f(checked)),
                ..old(self)@
            }),
            r == Ok::<(), Error>(()) <==> seq_contains_id(old(self)@.children, id),
            r is Err ==> r == Err::<(), Error>(Error::NotAChildOfThisMenu),
            final(self)@.wf(),
    {
        let ghost f = set_checked_f(checked);
        proof {
            assert forall|nv: NodeView| (#[trigger] f(nv)).children == nv.children by {}
            assert forall|nv: NodeView| (#[trigger] f(nv)).binding_surfaces()
                == nv.binding_surfaces() by {
                assert(f(nv).binding_surfaces() =~= nv.binding_surfaces());
            }
            assert forall|nv: NodeView| nv.wf_local() implies (#[trigger] f(nv)).wf_local() by {}
        }
        let n = self.children.len();
        let mut i: usize = 0;
        let mut found = false;
        let mut tmp = MenuChild::placeholder_node();
        while i < n
            invariant
                i <= n,
                self.children@.len() == n,
                self.id == old(self).id,
                self.context_id == old(self).context_id,
                self.surfaces == old(self).surfaces,
                forall|j: int| i <= j < n ==> self.children@[j] == old(self).children@[j],
                forall|j: int|
                    0 <= j < i ==> node_view(#[trigger] self.children@[j]) == vupdate(
                        node_view(old(self).children@[j]),
                        id,
                        f,
                    ),
                found == exists|j: int|
                    0 <= j < i && (#[trigger] node_view(old(self).children@[j])).contains_id(id),
            decreases n - i,
        {
            self.children.set_and_swap(i, &mut tmp);
            let f1 = tmp.update_checked(id, checked);
            self.children.set_and_swap(i, &mut tmp);
            proof {
                if f1 {
                    assert(node_view(old(self).children@[i as int]).contains_id(id));
                }
            }
            found = found || f1;
            i = i + 1;
        }
        proof {
            let ov = old(self)@;
            if found {
                let j = choose|j: int|
                    0 <= j < n && (#[trigger] node_view(old(self).children@[j])).contains_id(id);
                assert(ov.children[j].contains_id(id));
            } else {
                if exists|j: int|
                    0 <= j < ov.children.len() && (#[trigger] ov.children[j]).contains_id(id) {
                    let j = choose|j: int|
                        0 <= j < ov.children.len() && (#[trigger] ov.children[j]).contains_id(id);
                    assert(node_view(old(self).children@[j]).contains_id(id));
                }
            }
            assert(found == exists|j: int|
                0 <= j < ov.children.len() && (#[trigger] ov.children[j]).contains_id(id));
            self.finish_by_id_proof(ov, id, f, found);
        }
        if found {
            Ok(())
        } else {
            Err(Error::NotAChildOfThisMenu)
        }
    }

    /// The shared closing argument of the by-identifier operations: the
    /// final view is the by-identifier update of the old one, the surface
    /// invariant is preserved, and `found` says whether the identifier
    /// occurs.
    proof fn finish_by_id_proof(
        &self,
        ov: MenuView,
        id: u32,
        f: spec_fn(NodeView) -> NodeView,
        found: bool,
    )
        requires
            forall|nv: NodeView| (#[trigger] f(nv)).children == nv.children,
            forall|nv: NodeView| (#[trigger] f(nv)).binding_surfaces() == nv.binding_surfaces(),
            forall|nv: NodeView| nv.wf_local() ==> (#[trigger] f(nv)).wf_local(),
            ov.wf(),
            self@.id == ov.id,
            self@.context_id == ov.context_id,
            self@.surfaces == ov.surfaces,
            self@.children.len() == ov.children.len(),
            forall|i: int|
                0 <= i < ov.children.len() ==> #[trigger] self@.children[i] == vupdate(
                    ov.children[i],
                    id,
                    f,
                ),
            found == exists|j: int|
                0 <= j < ov.children.len() && (#[trigger] ov.children[j]).contains_id(id),
        ensures
            self@ == (MenuView { children: vupdate_seq(ov.children, id, f), ..ov }),
            self@.wf(),
            found == seq_contains_id(ov.children, id),
    {
        let target = MenuView { children: vupdate_seq(ov.children, id, f), ..ov };
        assert(self@.children =~= target.children);
        assert(self@ =~= target);
        assert(self@.surface_keys() =~= ov.surface_keys());
        assert forall|i: int| 0 <= i < self@.children.len() implies (#[trigger] self@.children[i]).wf()
            && self@.children[i].keys_ok(self@.surface_keys()) by {
            assert(self@.children[i] == vupdate(ov.children[i], id, f));
            lemma_vupdate_leaf(ov.children[i], id, f, ov.surface_keys());
        }
        assert(self@.wf());
    }

    /// The text change, addressed by identifier: the canonical text and
    /// every native label of the node, across every attached surface.
    ///
    /// Fails with `NotAChildOfThisMenu` exactly when the identifier does
    /// not occur in the tree (the tree is then unchanged).
    #[verifier::loop_isolation(false)]
    pub fn set_text(&mut self, id: u32, text: &str) -> (r: Result<(), Error>)
        requires
            old(self)@.wf(),
        ensures
            final(self)@ == (MenuView {
                children: vupdate_seq(old(self)@.children, id, set_text_f(text@)),
                ..old(self)@
            }),
            r == Ok::<(), Error>(()) <==> seq_contains_id(old(self)@.children, id),
            r is Err ==> r == Err::<(), Error>(Error::NotAChildOfThisMenu),
            final(self)@.wf(),
    {
        let ghost f = set_text_f(text@);
        proof {
            assert forall|nv: NodeView| (#[trigger] f(nv)).children == nv.children by {}
            assert forall|nv: NodeView| (#[trigger] f(nv)).binding_surfaces()
                == nv.binding_surfaces() by {
                assert(f(nv).binding_surfaces() =~= nv.binding_surfaces());
            }
            assert forall|nv: NodeView| nv.wf_local() implies (#[trigger] f(nv)).wf_local() by {}
        }
        let n = self.children.len();
        let mut i: usize = 0;
        let mut found = false;
        let mut tmp = MenuChild::placeholder_node();
        while i < n
            invariant
                i <= n,
                self.children@.len() == n,
                self.id == old(self).id,
                self.context_id == old(self).context_id,
                self.surfaces == old(self).surfaces,
                forall|j: int| i <= j < n ==> self.children@[j] == old(self).children@[j],
                forall|j: int|
                    0 <= j < i ==> node_view(#[trigger] self.children@[j]) == vupdate(
                        node_view(old(self).children@[j]),
                        id,
                        f,
                    ),
                found == exists|j: int|
                    0 <= j < i && (#[trigger] node_view(old(self).children@[j])).contains_id(id),
            decreases n - i,
        {
            self.children.set_and_swap(i, &mut tmp);
            let f1 = tmp.update_text(id, text);
            self.children.set_and_swap(i, &mut tmp);
            proof {
                if f1 {
                    assert(node_view(old(self).children@[i as int]).contains_id(id));
                }
            }
            found = found || f1;
            i = i + 1;
        }
        proof {
            let ov = old(self)@;
            if found {
                let j = choose|j: int|
                    0 <= j < n && (#[trigger] node_view(old(self).children@[j])).contains_id(id);
                assert(ov.children[j].contains_id(id));
            } else {
                if exists|j: int|
                    0 <= j < ov.children.len() && (#[trigger] ov.children[j]).contains_id(id) {
                    let j = choose|j: int|
                        0 <= j < ov.children.len() && (#[trigger] ov.children[j]).contains_id(id);
                    assert(node_view(old(self).children@[j]).contains_id(id));
                }
            }
            assert(found == exists|j: int|
                0 <= j < ov.children.len() && (#[trigger] ov.children[j]).contains_id(id));
            self.finish_by_id_proof(ov, id, f, found);
        }
        if found {
            Ok(())
        } else {
            Err(Error::NotAChildOfThisMenu)
        }
    }

    /// The enabled change, addressed by identifier: the canonical flag and
    /// every native widget's sensitivity, across every attached surface.
    ///
    /// Fails with `NotAChildOfThisMenu` exactly when the identifier does
    /// not occur in the tree (the tree is then unchanged).
    #[verifier::loop_isolation(false)]
    pub fn set_enabled(&mut self, id: u32, enabled: bool) -> (r: Result<(), Error>)
        requires
            old(self)@.wf(),
        ensures
            final(self)@ == (MenuView {
                children: vupdate_seq(old(self)@.children, id, set_enabled_f(enabled)),
                ..old(self)@
            }),
            r == Ok::<(), Error>(()) <==> seq_contains_id(old(self)@.children, id),
            r is Err ==> r == Err::<(), Error>(Error::NotAChildOfThisMenu),
            final(self)@.wf(),
    {
        let ghost f = set_enabled_f(enabled);
        proof {
            assert forall|nv: NodeView| (#[trigger] f(nv)).children == nv.children by {}
            assert forall|nv: NodeView| (#[trigger] f(nv)).binding_surfaces()
                == nv.binding_surfaces() by {
                assert(f(nv).binding_surfaces() =~= nv.binding_surfaces());
            }
            assert forall|nv: NodeView| nv.wf_local() implies (#[trigger] f(nv)).wf_local() by {}
        }
        let n = self.children.len();
        let mut i: usize = 0;
        let mut found = false;
        let mut tmp = MenuChild::placeholder_node();
        while i < n
            invariant
                i <= n,
                self.children@.len() == n,
                self.id == old(self).id,
                self.context_id == old(self).context_id,
                self.surfaces == old(self).surfaces,
                forall|j: int| i <= j < n ==> self.children@[j] == old(self).children@[j],
                forall|j: int|
                    0 <= j < i ==> node_view(#[trigger] self.children@[j]) == vupdate(
                        node_view(old(self).children@[j]),
                        id,
                        f,
                    ),
                found == exists|j: int|
                    0 <= j < i && (#[trigger] node_view(old(self).children@[j])).contains_id(id),
            decreases n - i,
        {
            self.children.set_and_swap(i, &mut tmp);
            let f1 = tmp.update_enabled(id, enabled);
            self.children.set_and_swap(i, &mut tmp);
            proof {
                if f1 {
                    assert(node_view(old(self).children@[i as int]).contains_id(id));
                }
            }
            found = found || f1;
            i = i + 1;
        }
        proof {
            let ov = old(self)@;
            if found {
                let j = choose|j: int|
                    0 <= j < n && (#[trigger] node_view(old(self).children@[j])).contains_id(id);
                assert(ov.children[j].contains_id(id));
            } else {
                if exists|j: int|
                    0 <= j < ov.children.len() && (#[trigger] ov.children[j]).contains_id(id) {
                    let j = choose|j: int|
                        0 <= j < ov.children.len() && (#[trigger] ov.children[j]).contains_id(id);
                    assert(node_view(old(self).children@[j]).contains_id(id));
                }
            }
            assert(found == exists|j: int|
                0 <= j < ov.children.len() && (#[trigger] ov.children[j]).contains_id(id));
            self.finish_by_id_proof(ov, id, f, found);
        }
        if found {
            Ok(())
        } else {
            Err(Error::NotAChildOfThisMenu)
        }
    }

    /// The accelerator change, addressed by identifier: parses the new
    /// spec, then replaces the node's registration in every attached
    /// surface's accelerator table (removing it where the new spec is
    /// `None`); the parse result becomes the node's cached platform
    /// accelerator, reused the next time a surface is attached.
    ///
    /// Fails with `AcceleratorParseError`, changing nothing, exactly when a
    /// spec is given whose key has no platform representation; with
    /// `NotAChildOfThisMenu` when the identifier does not occur.
    /// Predefined items carry a fixed accelerator hint: no reachable node
    /// with this identifier may be one.
    #[verifier::loop_isolation(false)]
    pub fn set_accelerator(&mut self, id: u32, accelerator: Option<Accelerator>) -> (r: Result<
        (),
        Error,
    >)
        requires
            old(self)@.wf(),
            seq_holds_at(old(self)@.children, id, not_predefined_p()),
        ensures
            accel_unrepresentable(accelerator) ==> r == Err::<(), Error>(
                Error::AcceleratorParseError,
            ) && final(self)@ == old(self)@,
            !accel_unrepresentable(accelerator) ==> final(self)@ == (MenuView {
                children: vupdate_seq(old(self)@.children, id, set_accel_f(accelerator)),
                ..old(self)@
            }) && (r == Ok::<(), Error>(()) <==> seq_contains_id(old(self)@.children, id)) && (
            r is Err ==> r == Err::<(), Error>(Error::NotAChildOfThisMenu)) && final(self)@.wf(),
    {
        match &accelerator {
            Some(a) => {
                match crate::accelerator::parse_accelerator(a) {
                    Ok(_) => {},
                    Err(e) => {
                        return Err(e);
                    },
                }
            },
            None => {},
        }
        let ghost f = set_accel_f(accelerator);
        proof {
            assert forall|nv: NodeView| (#[trigger] f(nv)).children == nv.children by {}
            assert forall|nv: NodeView| (#[trigger] f(nv)).binding_surfaces()
                == nv.binding_surfaces() by {
                assert(f(nv).binding_surfaces() =~= nv.binding_surfaces());
            }
            assert forall|nv: NodeView| nv.wf_local() implies (#[trigger] f(nv)).wf_local() by {}
        }
        let n = self.children.len();
        let mut i: usize = 0;
        let mut found = false;
        let mut tmp = MenuChild::placeholder_node();
        while i < n
            invariant
                i <= n,
                self.children@.len() == n,
                !accel_unrepresentable(accelerator),
                self.id == old(self).id,
                self.context_id == old(self).context_id,
                self.surfaces == old(self).surfaces,
                forall|j: int| i <= j < n ==> self.children@[j] == old(self).children@[j],
                forall|j: int|
                    0 <= j < i ==> node_view(#[trigger] self.children@[j]) == vupdate(
                        node_view(old(self).children@[j]),
                        id,
                        f,
                    ),
                found == exists|j: int|
                    0 <= j < i && (#[trigger] node_view(old(self).children@[j])).contains_id(id),
            decreases n - i,
        {
            self.children.set_and_swap(i, &mut tmp);
            proof {
                assert(old(self)@.children[i as int] == node_view(old(self).children@[i as int]));
                assert(node_view(tmp).holds_at(id, not_predefined_p()));
            }
            let f1 = tmp.update_accelerator(id, accelerator);
            self.children.set_and_swap(i, &mut tmp);
            proof {
                if f1 {
                    assert(node_view(old(self).children@[i as int]).contains_id(id));
                }
            }
            found = found || f1;
            i = i + 1;
        }
        proof {
            let ov = old(self)@;
            if found {
                let j = choose|j: int|
                    0 <= j < n && (#[trigger] node_view(old(self).children@[j])).contains_id(id);
                assert(ov.children[j].contains_id(id));
            } else {
                if exists|j: int|
                    0 <= j < ov.children.len() && (#[trigger] ov.children[j]).contains_id(id) {
                    let j = choose|j: int|
                        0 <= j < ov.children.len() && (#[trigger] ov.children[j]).contains_id(id);
                    assert(node_view(old(self).children@[j]).contains_id(id));
                }
            }
            assert(found == exists|j: int|
                0 <= j < ov.children.len() && (#[trigger] ov.children[j]).contains_id(id));
            self.finish_by_id_proof(ov, id, f, found);
        }
        if found {
            Ok(())
        } else {
            Err(Error::NotAChildOfThisMenu)
        }
    }

    /// The icon change, addressed by identifier: the canonical icon and
    /// every native widget's image, across every attached surface (cleared
    /// where the new icon is `None`).
    ///
    /// Fails with `NotAChildOfThisMenu` exactly when the identifier does
    /// not occur in the tree (the tree is then unchanged).
    #[verifier::loop_isolation(false)]
    pub fn set_icon(&mut self, id: u32, icon: Option<Icon>) -> (r: Result<(), Error>)
        requires
            old(self)@.wf(),
        ensures
            final(self)@ == (MenuView {
                children: vupdate_seq(old(self)@.children, id, set_icon_f(icon_view(icon))),
                ..old(self)@
            }),
            r == Ok::<(), Error>(()) <==> seq_contains_id(old(self)@.children, id),
            r is Err ==> r == Err::<(), Error>(Error::NotAChildOfThisMenu),
            final(self)@.wf(),
    {
        let ghost f = set_icon_f(icon_view(icon));
        proof {
            assert forall|nv: NodeView| (#[trigger] f(nv)).children == nv.children by {}
            assert forall|nv: NodeView| (#[trigger] f(nv)).binding_surfaces()
                == nv.binding_surfaces() by {}
            assert forall|nv: NodeView| nv.wf_local() implies (#[trigger] f(nv)).wf_local() by {}
        }
        let n = self.children.len();
        let mut i: usize = 0;
        let mut found = false;
        let mut tmp = MenuChild::placeholder_node();
        while i < n
            invariant
                i <= n,
                self.children@.len() == n,
                self.id == old(self).id,
                self.context_id == old(self).context_id,
                self.surfaces == old(self).surfaces,
                forall|j: int| i <= j < n ==> self.children@[j] == old(self).children@[j],
                forall|j: int|
                    0 <= j < i ==> node_view(#[trigger] self.children@[j]) == vupdate(
                        node_view(old(self).children@[j]),
                        id,
                        f,
                    ),
                found == exists|j: int|
                    0 <= j < i && (#[trigger] node_view(old(self).children@[j])).contains_id(id),
            decreases n - i,
        {
            self.children.set_and_swap(i, &mut tmp);
            let f1 = tmp.update_icon(id, &icon);
            self.children.set_and_swap(i, &mut tmp);
            proof {
                if f1 {
                    assert(node_view(old(self).children@[i as int]).contains_id(id));
                }
            }
            found = found || f1;
            i = i + 1;
        }
        proof {
            let ov = old(self)@;
            if found {
                let j = choose|j: int|
                    0 <= j < n && (#[trigger] node_view(old(self).children@[j])).contains_id(id);
                assert(ov.children[j].contains_id(id));
            } else {
                if exists|j: int|
                    0 <= j < ov.children.len() && (#[trigger] ov.children[j]).contains_id(id) {
                    let j = choose|j: int|
                        0 <= j < ov.children.len() && (#[trigger] ov.children[j]).contains_id(id);
                    assert(node_view(old(self).children@[j]).contains_id(id));
                }
            }
            assert(found == exists|j: int|
                0 <= j < ov.children.len() && (#[trigger] ov.children[j]).contains_id(id));
            self.finish_by_id_proof(ov, id, f, found);
        }
        if found {
            Ok(())
        } else {
            Err(Error::NotAChildOfThisMenu)
        }
    }

    /// The native activation callback for a plain, icon or predefined
    /// item: recovers the logical node by identifier and enqueues exactly
    /// one event bearing it.  (A check item's activation goes through
    /// `native_toggled` instead, which dispatches after its state sync.)
    ///
    /// Fails with `NotAChildOfThisMenu` exactly when the identifier does
    /// not occur in the tree; no event is produced then.
    #[verifier::loop_isolation(false)]
    pub fn native_activated(&self, id: u32, events: &mut EventChannel) -> (r: Result<(), Error>)
        ensures
            seq_contains_id(self@.children, id) ==> r == Ok::<(), Error>(()) && final(events)@
                == old(events)@.push(id),
            !seq_contains_id(self@.children, id) ==> r == Err::<(), Error>(
                Error::NotAChildOfThisMenu,
            ) && final(events)@ == old(events)@,
    {
        let n = self.children.len();
        let mut i: usize = 0;
        while i < n
            invariant
                i <= n,
                forall|j: int|
                    0 <= j < i ==> !node_view(#[trigger] self.children@[j]).contains_id(id),
                events@ == old(events)@,
            decreases n - i,
        {
            let c = &self.children[i];
            if c.contains_id_exec(id) {
                events.send(MenuEvent { id });
                proof {
                    assert(self@.children[i as int] == node_view(*c));
                    assert(seq_contains_id(self@.children, id));
                }
                return Ok(());
            }
            i = i + 1;
        }
        proof {
            assert(!seq_contains_id(self@.children, id)) by {
                if seq_contains_id(self@.children, id) {
                    let j = choose|j: int|
                        0 <= j < self@.children.len() && (#[trigger] self@.children[j]).contains_id(
                            id,
                        );
                    assert(node_view(self.children@[j]).contains_id(id));
                }
            }
        }
        Err(Error::NotAChildOfThisMenu)
    }

    /// The native toggle callback, addressed by identifier: folds a user
    /// toggle of a check item back into the canonical state.  If the node's
    /// reentrancy guard is idle, the toggled value becomes canonical, is
    /// propagated to every native projection on every surface, and exactly
    /// one event bearing the node's identifier is enqueued (`Ok(true)`).
    /// If the guard is held, the callback is the echo of a synchronization
    /// in flight: nothing changes and no event is produced (`Ok(false)`).
    ///
    /// Fails with `NotAChildOfThisMenu` exactly when the identifier does
    /// not occur in the tree; no event is produced then either.
    #[verifier::loop_isolation(false)]
    pub fn native_toggled(&mut self, id: u32, value: bool, events: &mut EventChannel) -> (r:
        Result<bool, Error>)
        requires
            old(self)@.wf(),
            seq_holds_at(old(self)@.children, id, is_check_p()),
        ensures
            final(self)@ == (MenuView {
                children: vupdate_seq(old(self)@.children, id, toggle_f(value)),
                ..old(self)@
            }),
            final(events)@ == old(events)@ + toggle_events_seq(old(self)@.children, id),
            (r is Ok) <==> seq_contains_id(old(self)@.children, id),
            (r matches Ok(d) ==> d == (toggle_events_seq(old(self)@.children, id).len() > 0)),
            r is Err ==> r == Err::<bool, Error>(Error::NotAChildOfThisMenu),
            final(self)@.wf(),
    {
        let ghost f = toggle_f(value);
        let ghost cviews = old(self)@.children;
        proof {
            assert forall|nv: NodeView| (#[trigger] f(nv)).children == nv.children by {}
            assert forall|nv: NodeView| (#[trigger] f(nv)).binding_surfaces()
                == nv.binding_surfaces() by {
                if !nv.syncing {
                    assert(f(nv).binding_surfaces() =~= nv.binding_surfaces());
                }
            }
            assert forall|nv: NodeView| nv.wf_local() implies (#[trigger] f(nv)).wf_local() by {}
        }
        let n = self.children.len();
        let mut i: usize = 0;
        let mut found = false;
        let mut dispatched = false;
        let mut tmp = MenuChild::placeholder_node();
        while i < n
            invariant
                i <= n,
                self.children@.len() == n,
                cviews.len() == n,
                self.id == old(self).id,
                self.context_id == old(self).context_id,
                self.surfaces == old(self).surfaces,
                forall|j: int| i <= j < n ==> self.children@[j] == old(self).children@[j],
                forall|j: int| 0 <= j < n ==> cviews[j] == node_view(old(self).children@[j]),
                forall|j: int|
                    0 <= j < i ==> node_view(#[trigger] self.children@[j]) == vupdate(
                        node_view(old(self).children@[j]),
                        id,
                        f,
                    ),
                found == exists|j: int|
                    0 <= j < i && (#[trigger] node_view(old(self).children@[j])).contains_id(id),
                events@ == old(events)@ + toggle_events_seq(cviews.take(i as int), id),
                dispatched == (toggle_events_seq(cviews.take(i as int), id).len() > 0),
            decreases n - i,
        {
            self.children.set_and_swap(i, &mut tmp);
            let r1 = tmp.update_toggle(id, value, events);
            self.children.set_and_swap(i, &mut tmp);
            proof {
                if r1.0 {
                    assert(node_view(old(self).children@[i as int]).contains_id(id));
                }
                assert(cviews.take(i + 1).drop_last() =~= cviews.take(i as int));
                assert(cviews.take(i + 1).last() == cviews[i as int]);
                assert(toggle_events_seq(cviews.take(i + 1), id) == toggle_events_seq(
                    cviews.take(i as int),
                    id,
                ) + toggle_events(cviews[i as int], id));
                assert(events@ =~= old(events)@ + toggle_events_seq(cviews.take(i + 1), id));
            }
            found = found || r1.0;
            dispatched = dispatched || r1.1;
            i = i + 1;
        }
        proof {
            assert(cviews.take(n as int) =~= cviews);
            let ov = old(self)@;
            if found {
                let j = choose|j: int|
                    0 <= j < n && (#[trigger] node_view(old(self).children@[j])).contains_id(id);
                assert(ov.children[j].contains_id(id));
            } else {
                if exists|j: int|
                    0 <= j < ov.children.len() && (#[trigger] ov.children[j]).contains_id(id) {
                    let j = choose|j: int|
                        0 <= j < ov.children.len() && (#[trigger] ov.children[j]).contains_id(id);
                    assert(node_view(old(self).children@[j]).contains_id(id));
                }
            }
            assert(found == exists|j: int|
                0 <= j < ov.children.len() && (#[trigger] ov.children[j]).contains_id(id));
            self.finish_by_id_proof(ov, id, f, found);
        }
        if found {
            Ok(dispatched)
        } else {
            Err(Error::NotAChildOfThisMenu)
        }
    }
}

/// What inserting a sequence of items one after another does: each item is
/// handled like a single insertion at the running position (skipped, or
/// materialized onto `keys` and inserted); the first failure aborts the
/// remainder, leaving the earlier items applied.
pub open spec fn insert_batch(
    ch: Seq<NodeView>,
    items: Seq<NodeView>,
    keys: Seq<u32>,
    pos: int,
) -> (Seq<NodeView>, Option<Error>)
    decreases items.len(),
{
    if items.len() == 0 {
        (ch, Option::None)
    } else if predefined_skip(items[0]) {
        insert_batch(ch, items.drop_first(), keys, pos + 1)
    } else if keys.len() > 0 && !items[0].accels_ok() {
        (ch, Option::Some(Error::AcceleratorParseError))
    } else {
        insert_batch(ch.insert(pos, mat_fresh(items[0], keys)), items.drop_first(), keys, pos + 1)
    }
}

/// Whether every position the batch will use stays within the child list:
/// the condition under which a batch insertion never panics.
pub open spec fn insert_batch_ok(chlen: int, items: Seq<NodeView>, keys: Seq<u32>, pos: int) -> bool
    decreases items.len(),
{
    if items.len() == 0 {
        true
    } else if predefined_skip(items[0]) {
        pos <= chlen && insert_batch_ok(chlen, items.drop_first(), keys, pos + 1)
    } else if keys.len() > 0 && !items[0].accels_ok() {
        pos <= chlen
    } else {
        pos <= chlen && insert_batch_ok(chlen + 1, items.drop_first(), keys, pos + 1)
    }
}

impl Menu {
    /// The attached surface keys, in attachment order.
    #[verifier::loop_isolation(false)]
    fn surface_keys_exec(&self) -> (r: Vec<u32>)
        ensures
            r@ == self@.surface_keys(),
    {
        let n = self.surfaces.len();
        let mut r: Vec<u32> = Vec::new();
        let mut i: usize = 0;
        while i < n
            invariant
                i <= n,
                r@.len() == i,
                forall|j: int| 0 <= j < i ==> r@[j] == self.surfaces@[j].key,
            decreases n - i,
        {
            r.push(self.surfaces[i].key);
            i = i + 1;
        }
        proof {
            assert(r@ =~= self@.surface_keys());
        }
        r
    }

    /// Add `item` to this menu's canonical child list, first fanning the
    /// same structural change out to every attached surface: the new
    /// child's subtree is materialized onto each of them.
    ///
    /// A predefined subtype with no native form here is silently skipped.
    /// If the menu is attached anywhere and the new item's subtree holds an
    /// accelerator with no platform representation, the insertion fails
    /// with `AcceleratorParseError` and nothing changes.
    #[verifier::loop_isolation(false)]
    pub fn add_menu_item(&mut self, item: MenuChild, op: AddOp) -> (r: Result<(), Error>)
        requires
            old(self)@.wf(),
            item@.wf(),
            op matches AddOp::Insert(p) ==> p <= old(self)@.children.len(),
        ensures
            predefined_skip(item@) ==> r == Ok::<(), Error>(()) && final(self)@ == old(self)@,
            !predefined_skip(item@) && old(self)@.surfaces.len() > 0 && !item@.accels_ok() ==> r
                == Err::<(), Error>(Error::AcceleratorParseError) && final(self)@ == old(self)@,
            !predefined_skip(item@) && (old(self)@.surfaces.len() == 0 || item@.accels_ok())
                ==> r == Ok::<(), Error>(()) && final(self)@ == (MenuView {
                children: old(self)@.children.insert(
                    pos_of(op, old(self)@.children.len()),
                    mat_fresh(item@, old(self)@.surface_keys()),
                ),
                ..old(self)@
            }) && final(self)@.wf(),
    {
        let skip = match item.item_type {
            MenuItemType::Predefined => {
                match item.predefined_item_type {
                    PredefinedMenuItemType::Separator => false,
                    PredefinedMenuItemType::Copy => false,
                    PredefinedMenuItemType::Cut => false,
                    PredefinedMenuItemType::Paste => false,
                    PredefinedMenuItemType::SelectAll => false,
                    PredefinedMenuItemType::About => false,
                    _ => true,
                }
            },
            _ => false,
        };
        if skip {
            return Ok(());
        }
        if self.surfaces.len() > 0 {
            if !item.accels_ok_exec() {
                return Err(Error::AcceleratorParseError);
            }
        }
        let keys = self.surface_keys_exec();
        let mut it = item;
        it.materialize_fresh(&keys);
        let ghost pos = pos_of(op, old(self)@.children.len());
        match op {
            AddOp::Append => self.children.push(it),
            AddOp::Insert(p) => self.children.insert(p, it),
        }
        proof {
            let ov = old(self)@;
            let target = MenuView {
                children: ov.children.insert(pos, mat_fresh(item@, ov.surface_keys())),
                ..ov
            };
            assert(self@.children =~= target.children);
            assert(self@.surfaces =~= target.surfaces);
            assert(self@ =~= target);
            assert(self@.surface_keys() =~= ov.surface_keys());
            lemma_mat_fresh_wf(item@, ov.surface_keys());
            assert forall|j: int| 0 <= j < self@.children.len() implies (#[trigger] self@.children[j]).wf()
                && self@.children[j].keys_ok(self@.surface_keys()) by {
                if j < pos {
                    assert(self@.children[j] == ov.children[j]);
                } else if j == pos {
                    assert(self@.children[j] == mat_fresh(item@, ov.surface_keys()));
                } else {
                    assert(self@.children[j] == ov.children[j - 1]);
                }
            }
            assert(self@.wf());
        }
        Ok(())
    }

    /// Add a menu item to the end of this menu.
    pub fn append(&mut self, item: MenuChild) -> (r: Result<(), Error>)
        requires
            old(self)@.wf(),
            item@.wf(),
        ensures
            predefined_skip(item@) ==> r == Ok::<(), Error>(()) && final(self)@ == old(self)@,
            !predefined_skip(item@) && old(self)@.surfaces.len() > 0 && !item@.accels_ok() ==> r
                == Err::<(), Error>(Error::AcceleratorParseError) && final(self)@ == old(self)@,
            !predefined_skip(item@) && (old(self)@.surfaces.len() == 0 || item@.accels_ok())
                ==> r == Ok::<(), Error>(()) && final(self)@ == (MenuView {
                children: old(self)@.children.push(
                    mat_fresh(item@, old(self)@.surface_keys()),
                ),
                ..old(self)@
            }) && final(self)@.wf(),
    {
        let r = self.add_menu_item(item, AddOp::Append);
        proof {
            assert(old(self)@.children.insert(
                old(self)@.children.len() as int,
                mat_fresh(item@, old(self)@.surface_keys()),
            ) =~= old(self)@.children.push(mat_fresh(item@, old(self)@.surface_keys())));
        }
        r
    }

    /// Add a menu item to the beginning of this menu.
    pub fn prepend(&mut self, item: MenuChild) -> (r: Result<(), Error>)
        requires
            old(self)@.wf(),
            item@.wf(),
        ensures
            predefined_skip(item@) ==> r == Ok::<(), Error>(()) && final(self)@ == old(self)@,
            !predefined_skip(item@) && old(self)@.surfaces.len() > 0 && !item@.accels_ok() ==> r
                == Err::<(), Error>(Error::AcceleratorParseError) && final(self)@ == old(self)@,
            !predefined_skip(item@) && (old(self)@.surfaces.len() == 0 || item@.accels_ok())
                ==> r == Ok::<(), Error>(()) && final(self)@ == (MenuView {
                children: old(self)@.children.insert(
                    0,
                    mat_fresh(item@, old(self)@.surface_keys()),
                ),
                ..old(self)@
            }) && final(self)@.wf(),
    {
        self.add_menu_item(item, AddOp::Insert(0))
    }

    /// Insert a menu item at the given position in this menu.
    pub fn insert(&mut self, item: MenuChild, position: usize) -> (r: Result<(), Error>)
        requires
            old(self)@.wf(),
            item@.wf(),
            position <= old(self)@.children.len(),
        ensures
            predefined_skip(item@) ==> r == Ok::<(), Error>(()) && final(self)@ == old(self)@,
            !predefined_skip(item@) && old(self)@.surfaces.len() > 0 && !item@.accels_ok() ==> r
                == Err::<(), Error>(Error::AcceleratorParseError) && final(self)@ == old(self)@,
            !predefined_skip(item@) && (old(self)@.surfaces.len() == 0 || item@.accels_ok())
                ==> r == Ok::<(), Error>(()) && final(self)@ == (MenuView {
                children: old(self)@.children.insert(
                    position as int,
                    mat_fresh(item@, old(self)@.surface_keys()),
                ),
                ..old(self)@
            }) && final(self)@.wf(),
    {
        self.add_menu_item(item, AddOp::Insert(position))
    }

    /// Remove the direct child carrying `id` from this menu: first the
    /// whole removed subtree's native bindings are torn down on every
    /// attached surface, then the canonical list entry is removed.  The
    /// torn-down node is handed back.
    ///
    /// Fails with `NotAChildOfThisMenu`, changing nothing, exactly when no
    /// direct child carries `id`.
    #[verifier::loop_isolation(false)]
    pub fn remove(&mut self, id: u32) -> (r: Result<MenuChild, Error>)
        requires
            old(self)@.wf(),
        ensures
            !has_child(old(self)@.children, id) ==> r is Err && final(self)@ == old(self)@,
            !has_child(old(self)@.children, id) ==> (r matches Err(e) && e
                == Error::NotAChildOfThisMenu),
            has_child(old(self)@.children, id) ==> (match r {
                Ok(c) => c@ == old(self)@.children[child_index(old(self)@.children, id)].strip()
                    && final(self)@ == (MenuView {
                    children: old(self)@.children.remove(child_index(old(self)@.children, id)),
                    ..old(self)@
                }) && final(self)@.wf(),
                Err(_) => false,
            }),
            // with distinct direct-child identifiers (as one counter
            // guarantees), the removed identifier is gone from the
            // canonical list
            has_child(old(self)@.children, id) && distinct_child_ids(old(self)@.children)
                ==> !has_child(final(self)@.children, id),
    {
        let n = self.children.len();
        let mut i: usize = 0;
        while i < n
            invariant
                i <= n,
                n == self.children@.len(),
                *self == *old(self),
                forall|j: int| 0 <= j < i ==> (#[trigger] self.children@[j]).id != id,
            decreases n - i,
        {
            let hit = self.children[i].id == id;
            if hit {
                let mut c = self.children.remove(i);
                c.strip_bindings();
                proof {
                    let ov = old(self)@;
                    assert(ov.children[i as int] == node_view(old(self).children@[i as int]));
                    assert(has_child(ov.children, id));
                    lemma_child_index(ov.children, id);
                    let ci = child_index(ov.children, id);
                    assert forall|j: int| 0 <= j < i implies ov.children[j].id != id by {
                        assert(ov.children[j] == node_view(old(self).children@[j]));
                    }
                    assert(ci == i) by {
                        if ci < i {
                            assert(ov.children[ci].id == id);
                        }
                        if ci > i {
                            assert(ov.children[i as int].id != id);
                        }
                    }
                    let target = MenuView { children: ov.children.remove(i as int), ..ov };
                    assert(self@.children =~= target.children);
                    assert(self@.surfaces =~= target.surfaces);
                    assert(self@ =~= target);
                    assert(self@.surface_keys() =~= ov.surface_keys());
                    assert forall|j: int| 0 <= j < self@.children.len() implies (
                    #[trigger] self@.children[j]).wf() && self@.children[j].keys_ok(
                        self@.surface_keys(),
                    ) by {
                        if j < i {
                            assert(self@.children[j] == ov.children[j]);
                        } else {
                            assert(self@.children[j] == ov.children[j + 1]);
                        }
                    }
                    assert(self@.wf());
                    if distinct_child_ids(ov.children) && has_child(self@.children, id) {
                        let rest = self@.children;
                        let j = choose|j: int| 0 <= j < rest.len() && (#[trigger] rest[j]).id == id;
                        let k: int = if j < i {
                            j
                        } else {
                            j + 1
                        };
                        assert(rest[j] == ov.children[k]);
                        assert(ov.children[k].id == id);
                        assert(ov.children[i as int].id == id);
                        assert(k != i);
                        assert(false);
                    }
                }
                return Ok(c);
            }
            i = i + 1;
        }
        proof {
            let ov = old(self)@;
            assert(!has_child(ov.children, id)) by {
                if has_child(ov.children, id) {
                    let j = choose|j: int|
                        0 <= j < ov.children.len() && (#[trigger] ov.children[j]).id == id;
                    assert(ov.children[j] == node_view(old(self).children@[j]));
                }
            }
        }
        Err(Error::NotAChildOfThisMenu)
    }
}

/// What appending a sequence of items one after another does: each item is
/// handled like a single append (skipped, or materialized onto `keys` and
/// pushed); the first failure aborts the remainder, leaving the earlier
/// items applied.
pub open spec fn append_batch(ch: Seq<NodeView>, items: Seq<NodeView>, keys: Seq<u32>) -> (
    Seq<NodeView>,
    Option<Error>,
)
    decreases items.len(),
{
    if items.len() == 0 {
        (ch, Option::None)
    } else if predefined_skip(items[0]) {
        append_batch(ch, items.drop_first(), keys)
    } else if keys.len() > 0 && !items[0].accels_ok() {
        (ch, Option::Some(Error::AcceleratorParseError))
    } else {
        append_batch(ch.push(mat_fresh(items[0], keys)), items.drop_first(), keys)
    }
}

/// A batch onto a menu attached nowhere cannot fail.
pub proof fn lemma_append_batch_no_keys(ch: Seq<NodeView>, items: Seq<NodeView>)
    ensures
        append_batch(ch, items, Seq::empty()).1 is None,
    decreases items.len(),
{
    if items.len() > 0 {
        if predefined_skip(items[0]) {
            lemma_append_batch_no_keys(ch, items.drop_first());
        } else {
            lemma_append_batch_no_keys(
                ch.push(mat_fresh(items[0], Seq::empty())),
                items.drop_first(),
            );
        }
    }
}

impl Menu {
    /// Add menu items to the end of this menu, one after another.  A
    /// failure partway leaves the earlier items applied and aborts the
    /// remainder, returning the first error.
    #[verifier::loop_isolation(false)]
    pub fn append_items(&mut self, items: Vec<MenuChild>) -> (r: Result<(), Error>)
        requires
            old(self)@.wf(),
            forall|i: int| 0 <= i < items@.len() ==> (#[trigger] node_view(items@[i])).wf(),
        ensures
            final(self)@ == (MenuView {
                children: append_batch(
                    old(self)@.children,
                    views_of(items@),
                    old(self)@.surface_keys(),
                ).0,
                ..old(self)@
            }),
            (match append_batch(old(self)@.children, views_of(items@), old(self)@.surface_keys()).1 {
                Option::None => r == Ok::<(), Error>(()),
                Option::Some(e) => r == Err::<(), Error>(e),
            }),
            final(self)@.wf(),
    {
        let ghost ov = old(self)@;
        let ghost iviews = views_of(items@);
        let ghost keys = ov.surface_keys();
        let mut rest = items;
        while rest.len() > 0
            invariant
                self@.wf(),
                self@.id == ov.id,
                self@.context_id == ov.context_id,
                self@.surfaces == ov.surfaces,
                self@.surface_keys() == keys,
                forall|i: int| 0 <= i < rest@.len() ==> (#[trigger] node_view(rest@[i])).wf(),
                append_batch(ov.children, iviews, keys) == append_batch(
                    self@.children,
                    views_of(rest@),
                    keys,
                ),
            decreases rest@.len(),
        {
            let ghost pre = self@;
            let ghost prv = views_of(rest@);
            let it = rest.remove(0);
            proof {
                assert(prv[0] == it@);
                assert(prv.drop_first() =~= views_of(rest@));
            }
            match self.append(it) {
                Ok(()) => {
                    proof {
                        if predefined_skip(it@) {
                            assert(append_batch(pre.children, prv, keys) == append_batch(
                                self@.children,
                                views_of(rest@),
                                keys,
                            ));
                        } else {
                            assert(self@.children == pre.children.push(mat_fresh(it@, keys)));
                            assert(append_batch(pre.children, prv, keys) == append_batch(
                                self@.children,
                                views_of(rest@),
                                keys,
                            ));
                        }
                    }
                },
                Err(e) => {
                    proof {
                        assert(keys.len() > 0 && !it@.accels_ok());
                        assert(append_batch(pre.children, prv, keys) == (
                            pre.children,
                            Option::Some(Error::AcceleratorParseError),
                        ));
                        assert(final(self)@ =~= (MenuView {
                            children: append_batch(ov.children, iviews, keys).0,
                            ..ov
                        }));
                    }
                    return Err(e);
                },
            }
        }
        proof {
            assert(views_of(rest@) =~= Seq::<NodeView>::empty());
            assert(append_batch(self@.children, views_of(rest@), keys) == (
                self@.children,
                Option::None::<Error>,
            ));
            assert(final(self)@ =~= (MenuView {
                children: append_batch(ov.children, iviews, keys).0,
                ..ov
            }));
        }
        Ok(())
    }

    /// Insert menu items at the given position, one after another; each
    /// item lands one position further right.  A failure partway leaves
    /// the earlier items applied and aborts the remainder, returning the
    /// first error.
    #[verifier::loop_isolation(false)]
    pub fn insert_items(&mut self, items: Vec<MenuChild>, position: usize) -> (r: Result<
        (),
        Error,
    >)
        requires
            old(self)@.wf(),
            forall|i: int| 0 <= i < items@.len() ==> (#[trigger] node_view(items@[i])).wf(),
            insert_batch_ok(
                old(self)@.children.len() as int,
                views_of(items@),
                old(self)@.surface_keys(),
                position as int,
            ),
        ensures
            final(self)@ == (MenuView {
                children: insert_batch(
                    old(self)@.children,
                    views_of(items@),
                    old(self)@.surface_keys(),
                    position as int,
                ).0,
                ..old(self)@
            }),
            (match insert_batch(
                old(self)@.children,
                views_of(items@),
                old(self)@.surface_keys(),
                position as int,
            ).1 {
                Option::None => r == Ok::<(), Error>(()),
                Option::Some(e) => r == Err::<(), Error>(e),
            }),
            final(self)@.wf(),
    {
        let ghost ov = old(self)@;
        let ghost iviews = views_of(items@);
        let ghost keys = ov.surface_keys();
        let mut rest = items;
        let mut pos: usize = position;
        while rest.len() > 0
            invariant
                self@.wf(),
                self@.id == ov.id,
                self@.context_id == ov.context_id,
                self@.surfaces == ov.surfaces,
                self@.surface_keys() == keys,
                forall|i: int| 0 <= i < rest@.len() ==> (#[trigger] node_view(rest@[i])).wf(),
                insert_batch(ov.children, iviews, keys, position as int) == insert_batch(
                    self@.children,
                    views_of(rest@),
                    keys,
                    pos as int,
                ),
                insert_batch_ok(
                    self@.children.len() as int,
                    views_of(rest@),
                    keys,
                    pos as int,
                ),
            decreases rest@.len(),
        {
            let ghost pre = self@;
            let ghost prv = views_of(rest@);
            let it = rest.remove(0);
            proof {
                assert(prv[0] == it@);
                assert(prv.drop_first() =~= views_of(rest@));
                assert(pos <= pre.children.len());
            }
            match self.insert(it, pos) {
                Ok(()) => {
                    proof {
                        if predefined_skip(it@) {
                            assert(insert_batch(pre.children, prv, keys, pos as int)
                                == insert_batch(
                                self@.children,
                                views_of(rest@),
                                keys,
                                pos as int + 1,
                            ));
                            assert(insert_batch_ok(
                                self@.children.len() as int,
                                views_of(rest@),
                                keys,
                                pos as int + 1,
                            ));
                        } else {
                            assert(self@.children == pre.children.insert(
                                pos as int,
                                mat_fresh(it@, keys),
                            ));
                            assert(insert_batch(pre.children, prv, keys, pos as int)
                                == insert_batch(
                                self@.children,
                                views_of(rest@),
                                keys,
                                pos as int + 1,
                            ));
                            assert(insert_batch_ok(
                                self@.children.len() as int,
                                views_of(rest@),
                                keys,
                                pos as int + 1,
                            ));
                        }
                    }
                },
                Err(e) => {
                    proof {
                        assert(keys.len() > 0 && !it@.accels_ok());
                        assert(insert_batch(pre.children, prv, keys, pos as int) == (
                            pre.children,
                            Option::Some(Error::AcceleratorParseError),
                        ));
                        assert(final(self)@ =~= (MenuView {
                            children: insert_batch(ov.children, iviews, keys, position as int).0,
                            ..ov
                        }));
                    }
                    return Err(e);
                },
            }
            if rest.len() > 0 {
                let cur = self.children.len();
                proof {
                    assert(pos as int + 1 <= cur as int);
                }
                pos = pos + 1;
            }
        }
        proof {
            assert(views_of(rest@) =~= Seq::<NodeView>::empty());
            assert(insert_batch(self@.children, views_of(rest@), keys, pos as int) == (
                self@.children,
                Option::None::<Error>,
            ));
            assert(final(self)@ =~= (MenuView {
                children: insert_batch(ov.children, iviews, keys, position as int).0,
                ..ov
            }));
        }
        Ok(())
    }

    /// Add menu items to the beginning of this menu, one after another.
    pub fn prepend_items(&mut self, items: Vec<MenuChild>) -> (r: Result<(), Error>)
        requires
            old(self)@.wf(),
            forall|i: int| 0 <= i < items@.len() ==> (#[trigger] node_view(items@[i])).wf(),
            insert_batch_ok(
                old(self)@.children.len() as int,
                views_of(items@),
                old(self)@.surface_keys(),
                0,
            ),
        ensures
            final(self)@ == (MenuView {
                children: insert_batch(
                    old(self)@.children,
                    views_of(items@),
                    old(self)@.surface_keys(),
                    0,
                ).0,
                ..old(self)@
            }),
            (match insert_batch(
                old(self)@.children,
                views_of(items@),
                old(self)@.surface_keys(),
                0,
            ).1 {
                Option::None => r == Ok::<(), Error>(()),
                Option::Some(e) => r == Err::<(), Error>(e),
            }),
            final(self)@.wf(),
    {
        self.insert_items(items, 0)
    }

    /// Create a new menu holding the given items: a new menu, then one
    /// append per item.  The new menu is attached nowhere yet, so no item
    /// can fail to materialize.
    pub fn with_items(counter: &mut Counter, items: Vec<MenuChild>) -> (r: Result<Menu, Error>)
        requires
            old(counter).spec_value() < u32::MAX - 1,
            forall|i: int| 0 <= i < items@.len() ==> (#[trigger] node_view(items@[i])).wf(),
        ensures
            (match r {
                Ok(m) => m@ == (MenuView {
                    id: old(counter).spec_value(),
                    context_id: (old(counter).spec_value() + 1) as u32,
                    surfaces: Seq::empty(),
                    children: append_batch(Seq::empty(), views_of(items@), Seq::empty()).0,
                }) && m@.wf(),
                Err(_) => false,
            }),
            final(counter).spec_value() == old(counter).spec_value() + 2,
    {
        let mut m = Menu::new(counter);
        let ghost iviews = views_of(items@);
        proof {
            lemma_append_batch_no_keys(Seq::empty(), iviews);
            assert(m@.surface_keys() =~= Seq::<u32>::empty());
        }
        match m.append_items(items) {
            Ok(()) => Ok(m),
            Err(_) => {
                proof {
                    assert(false);
                }
                Err(Error::AcceleratorParseError)
            },
        }
    }

    /// The surface key of this menu's dedicated context menu, creating and
    /// populating its native projection on first use: every current child
    /// is replayed onto it, and later mutations keep it in sync like any
    /// other surface.
    ///
    /// Every accelerator in the tree must be representable; pre-check with
    /// `MenuChild::accels_ok_exec` where that is not known.
    pub fn context_menu(&mut self) -> (r: u32)
        requires
            old(self)@.wf(),
            forall|i: int|
                0 <= i < old(self)@.children.len() ==> (
                #[trigger] old(self)@.children[i]).accels_ok(),
        ensures
            r == old(self)@.context_id,
            old(self)@.attached(old(self)@.context_id) ==> final(self)@ == old(self)@,
            !old(self)@.attached(old(self)@.context_id) ==> final(self)@ == (MenuView {
                surfaces: old(self)@.surfaces.push(
                    SurfView { key: old(self)@.context_id, visible: true },
                ),
                children: old(self)@.children.map_values(
                    |n: NodeView| mat_add(n, old(self)@.context_id),
                ),
                ..old(self)@
            }) && final(self)@.wf(),
            final(self)@.attached(old(self)@.context_id),
    {
        let key = self.context_id;
        if self.is_attached(key) {
            return key;
        }
        let r = self.attach(key);
        proof {
            assert(r is Ok);
            assert(final(self)@.surfaces.last().key == key);
        }
        key
    }
}

impl Menu {
    /// The structural insertion, addressed by identifier: add `item` to
    /// the submenu carrying `parent_id`, wherever it sits in the tree,
    /// fanning the change out to every surface currently showing that
    /// submenu (under this menu's invariant: every attached surface).
    ///
    /// A predefined subtype with no native form here is silently skipped.
    /// If the menu is attached anywhere and the item's subtree holds an
    /// unrepresentable accelerator, the insertion fails with
    /// `AcceleratorParseError`; if the identifier does not occur, with
    /// `NotAChildOfThisMenu`.  Nothing changes on failure.
    #[verifier::loop_isolation(false)]
    pub fn add_to(&mut self, parent_id: u32, item: MenuChild, op: AddOp) -> (r: Result<(), Error>)
        requires
            old(self)@.wf(),
            item@.wf(),
            seq_holds_at(old(self)@.children, parent_id, is_submenu_p()),
            seq_holds_at(old(self)@.children, parent_id, insert_ok_p(op)),
        ensures
            predefined_skip(item@) ==> r == Ok::<(), Error>(()) && final(self)@ == old(self)@,
            !predefined_skip(item@) && old(self)@.surfaces.len() > 0 && !item@.accels_ok() ==> r
                == Err::<(), Error>(Error::AcceleratorParseError) && final(self)@ == old(self)@,
            !predefined_skip(item@) && (old(self)@.surfaces.len() == 0 || item@.accels_ok()) ==> (
            final(self)@ == (MenuView {
                children: vupdate_seq(old(self)@.children, parent_id, add_child_f(item@, op)),
                ..old(self)@
            }) && (r == Ok::<(), Error>(()) <==> seq_contains_id(old(self)@.children, parent_id))
                && (r is Err ==> r == Err::<(), Error>(Error::NotAChildOfThisMenu))
                && final(self)@.wf()),
    {
        let skip = match item.item_type {
            MenuItemType::Predefined => {
                match item.predefined_item_type {
                    PredefinedMenuItemType::Separator => false,
                    PredefinedMenuItemType::Copy => false,
                    PredefinedMenuItemType::Cut => false,
                    PredefinedMenuItemType::Paste => false,
                    PredefinedMenuItemType::SelectAll => false,
                    PredefinedMenuItemType::About => false,
                    _ => true,
                }
            },
            _ => false,
        };
        if skip {
            return Ok(());
        }
        if self.surfaces.len() > 0 {
            if !item.accels_ok_exec() {
                return Err(Error::AcceleratorParseError);
            }
        }
        let ghost f = add_child_f(item@, op);
        let n = self.children.len();
        let mut i: usize = 0;
        let mut found = false;
        let mut tmp = MenuChild::placeholder_node();
        while i < n
            invariant
                i <= n,
                self.children@.len() == n,
                self.id == old(self).id,
                self.context_id == old(self).context_id,
                self.surfaces == old(self).surfaces,
                forall|j: int| i <= j < n ==> self.children@[j] == old(self).children@[j],
                forall|j: int|
                    0 <= j < i ==> node_view(#[trigger] self.children@[j]) == vupdate(
                        node_view(old(self).children@[j]),
                        parent_id,
                        f,
                    ),
                found == exists|j: int|
                    0 <= j < i && (#[trigger] node_view(old(self).children@[j])).contains_id(
                        parent_id,
                    ),
            decreases n - i,
        {
            self.children.set_and_swap(i, &mut tmp);
            proof {
                assert(old(self)@.children[i as int] == node_view(old(self).children@[i as int]));
                assert(node_view(tmp).holds_at(parent_id, is_submenu_p()));
                assert(node_view(tmp).holds_at(parent_id, insert_ok_p(op)));
            }
            let f1 = tmp.add_to(parent_id, &item, op);
            self.children.set_and_swap(i, &mut tmp);
            proof {
                if f1 {
                    assert(node_view(old(self).children@[i as int]).contains_id(parent_id));
                }
            }
            found = found || f1;
            i = i + 1;
        }
        proof {
            let ov = old(self)@;
            let target = MenuView { children: vupdate_seq(ov.children, parent_id, f), ..ov };
            assert(self@.children =~= target.children);
            assert(self@ =~= target);
            assert(self@.surface_keys() =~= ov.surface_keys());
            assert forall|j: int| 0 <= j < self@.children.len() implies (#[trigger] self@.children[j]).wf()
                && self@.children[j].keys_ok(self@.surface_keys()) by {
                assert(self@.children[j] == vupdate(ov.children[j], parent_id, f));
                assert(ov.children[j].holds_at(parent_id, is_submenu_p()));
                assert(ov.children[j].holds_at(parent_id, insert_ok_p(op)));
                lemma_vupdate_add(ov.children[j], parent_id, item@, op, ov.surface_keys());
            }
            assert(self@.wf());
            if found {
                let j = choose|j: int|
                    0 <= j < n && (#[trigger] node_view(old(self).children@[j])).contains_id(
                        parent_id,
                    );
                assert(ov.children[j].contains_id(parent_id));
            } else {
                if seq_contains_id(ov.children, parent_id) {
                    let j = choose|j: int|
                        0 <= j < ov.children.len() && (#[trigger] ov.children[j]).contains_id(
                            parent_id,
                        );
                    assert(node_view(old(self).children@[j]).contains_id(parent_id));
                }
            }
        }
        if found {
            Ok(())
        } else {
            Err(Error::NotAChildOfThisMenu)
        }
    }

    /// The structural removal, addressed by identifier: remove the direct
    /// child carrying `id` from the composite carrying `parent_id`,
    /// tearing the removed subtree's native handles down on every surface
    /// showing it.
    ///
    /// Fails with `NotAChildOfThisMenu`, changing nothing, exactly when no
    /// composite carrying `parent_id` with such a direct child exists.
    #[verifier::loop_isolation(false)]
    pub fn remove_from(&mut self, parent_id: u32, id: u32) -> (r: Result<(), Error>)
        requires
            old(self)@.wf(),
        ensures
            final(self)@ == (MenuView {
                children: vupdate_seq(old(self)@.children, parent_id, rm_child_f(id)),
                ..old(self)@
            }),
            r == Ok::<(), Error>(()) <==> (seq_contains_id(old(self)@.children, parent_id)
                && !seq_holds_at(old(self)@.children, parent_id, no_child_p(id))),
            r is Err ==> r == Err::<(), Error>(Error::NotAChildOfThisMenu),
            final(self)@.wf(),
    {
        let ghost f = rm_child_f(id);
        let n = self.children.len();
        let mut i: usize = 0;
        let mut found = false;
        let mut removed = false;
        let mut tmp = MenuChild::placeholder_node();
        while i < n
            invariant
                i <= n,
                self.children@.len() == n,
                self.id == old(self).id,
                self.context_id == old(self).context_id,
                self.surfaces == old(self).surfaces,
                forall|j: int| i <= j < n ==> self.children@[j] == old(self).children@[j],
                forall|j: int|
                    0 <= j < i ==> node_view(#[trigger] self.children@[j]) == vupdate(
                        node_view(old(self).children@[j]),
                        parent_id,
                        f,
                    ),
                found == exists|j: int|
                    0 <= j < i && (#[trigger] node_view(old(self).children@[j])).contains_id(
                        parent_id,
                    ),
                removed == exists|j: int|
                    0 <= j < i && !(#[trigger] node_view(old(self).children@[j])).holds_at(
                        parent_id,
                        no_child_p(id),
                    ),
            decreases n - i,
        {
            self.children.set_and_swap(i, &mut tmp);
            let r1 = tmp.remove_at(parent_id, id);
            self.children.set_and_swap(i, &mut tmp);
            proof {
                if r1.0 {
                    assert(node_view(old(self).children@[i as int]).contains_id(parent_id));
                }
                if r1.1 {
                    assert(!node_view(old(self).children@[i as int]).holds_at(
                        parent_id,
                        no_child_p(id),
                    ));
                }
            }
            found = found || r1.0;
            removed = removed || r1.1;
            i = i + 1;
        }
        proof {
            let ov = old(self)@;
            let target = MenuView { children: vupdate_seq(ov.children, parent_id, f), ..ov };
            assert(self@.children =~= target.children);
            assert(self@ =~= target);
            assert(self@.surface_keys() =~= ov.surface_keys());
            assert forall|j: int| 0 <= j < self@.children.len() implies (#[trigger] self@.children[j]).wf()
                && self@.children[j].keys_ok(self@.surface_keys()) by {
                assert(self@.children[j] == vupdate(ov.children[j], parent_id, f));
                lemma_vupdate_rm(ov.children[j], parent_id, id, ov.surface_keys());
            }
            assert(self@.wf());
            if removed {
                let j = choose|j: int|
                    0 <= j < n && !(#[trigger] node_view(old(self).children@[j])).holds_at(
                        parent_id,
                        no_child_p(id),
                    );
                assert(!ov.children[j].holds_at(parent_id, no_child_p(id)));
                assert(!ov.children[j].contains_id(parent_id) ==> false) by {
                    if !ov.children[j].contains_id(parent_id) {
                        lemma_absent_holds(ov.children[j], parent_id, no_child_p(id));
                    }
                }
                assert(ov.children[j].contains_id(parent_id));
                assert(seq_contains_id(ov.children, parent_id));
                assert(!seq_holds_at(ov.children, parent_id, no_child_p(id)));
            } else {
                assert(seq_holds_at(ov.children, parent_id, no_child_p(id))) by {
                    assert forall|j: int| 0 <= j < ov.children.len() implies (
                    #[trigger] ov.children[j]).holds_at(parent_id, no_child_p(id)) by {
                        assert(ov.children[j] == node_view(old(self).children@[j]));
                    }
                }
            }
        }
        if removed {
            Ok(())
        } else {
            Err(Error::NotAChildOfThisMenu)
        }
    }
}

} // verus!
