//! The mathematical model of a menu tree.
//!
//! `NodeView` is the view of one logical node: its canonical attributes, its
//! canonical child sequence, and one `BView` per native widget currently
//! projecting it (one per attached surface).  The spec functions here define
//! what every tree operation does to that model; the executable operations'
//! contracts are stated over them.

use vstd::prelude::*;

use crate::accelerator::{spec_parse, Accelerator, ParsedAccel};
use crate::child::{MenuItemType, PredefinedMenuItemType};

verus! {

/// The view of one native widget instance: the projection of one node onto
/// one surface.  The native widget itself is owned by the toolkit; this
/// records the state the engine has pushed into it.
#[verifier::ext_equal]
pub ghost struct BView {
    /// The surface key this widget was created for.
    pub surface: u32,
    /// The checked state the native widget shows.
    pub checked: bool,
    /// The label the native widget shows.
    pub text: Seq<char>,
    /// The sensitivity the native widget has.
    pub enabled: bool,
    /// The icon the native widget shows, if any.
    pub icon: Option<IconView>,
    /// What is registered for this node in this surface's accelerator table.
    pub accel: Option<ParsedAccel>,
}

/// The view of an icon: raw RGBA bytes and dimensions.
#[verifier::ext_equal]
pub ghost struct IconView {
    pub rgba: Seq<u8>,
    pub width: u32,
    pub height: u32,
}

/// The view of one logical menu node, children included.
#[verifier::ext_equal]
pub ghost struct NodeView {
    pub id: u32,
    pub item_type: MenuItemType,
    pub predefined_item_type: PredefinedMenuItemType,
    pub text: Seq<char>,
    pub enabled: bool,
    /// Canonical checked state; meaningful for `Check` nodes.
    pub checked: bool,
    /// The reentrancy guard of the checked-state synchronizer.
    pub syncing: bool,
    pub icon: Option<IconView>,
    /// The abstract accelerator, as the application supplied it.
    pub accelerator: Option<Accelerator>,
    /// The cached platform representation of `accelerator`, parsed at most
    /// once per change.
    pub parsed: Option<ParsedAccel>,
    /// One entry per surface currently showing this node.
    pub bindings: Seq<BView>,
    pub children: Seq<NodeView>,
}

/// The parse of an optional accelerator: `None` stays `None`; an accelerator
/// maps to its platform representation (`None` if it has no representation).
pub open spec fn popt(a: Option<Accelerator>) -> Option<ParsedAccel> {
    match a {
        Option::None => Option::None,
        Option::Some(x) => spec_parse(x),
    }
}

impl NodeView {
    /// A fixed placeholder value, used only outside the meaningful index
    /// range of sequence constructions.
    pub open spec fn placeholder() -> NodeView {
        NodeView {
            id: 0,
            item_type: MenuItemType::MenuItem,
            predefined_item_type: PredefinedMenuItemType::Separator,
            text: Seq::empty(),
            enabled: false,
            checked: false,
            syncing: false,
            icon: Option::None,
            accelerator: Option::None,
            parsed: Option::None,
            bindings: Seq::empty(),
            children: Seq::empty(),
        }
    }

    /// The surface keys this node is currently bound to, in attachment order.
    pub open spec fn binding_surfaces(self) -> Seq<u32> {
        self.bindings.map_values(surf_of())
    }

    /// Local well-formedness: only submenus have children, and a cached
    /// platform accelerator is exactly the parse of the abstract one.
    pub open spec fn wf_local(self) -> bool {
        &&& (!(self.item_type is Submenu) ==> self.children.len() == 0)
        &&& (self.parsed is Some ==> self.accelerator is Some && spec_parse(
            self.accelerator->0,
        ) == self.parsed)
    }

    /// Well-formedness of the whole subtree.
    pub open spec fn wf(self) -> bool
        decreases self,
    {
        &&& self.wf_local()
        &&& forall|i: int|
            0 <= i < self.children.len() ==> (#[trigger] self.children[i]).wf()
    }

    /// Every node of the subtree is bound to exactly the surfaces `keys`, in
    /// that order: the invariant tying a tree to its menu's surface list.
    pub open spec fn keys_ok(self, keys: Seq<u32>) -> bool
        decreases self,
    {
        &&& self.binding_surfaces() == keys
        &&& forall|i: int|
            0 <= i < self.children.len() ==> (#[trigger] self.children[i]).keys_ok(keys)
    }

    /// No node of the subtree holds any native binding.
    pub open spec fn no_bindings(self) -> bool
        decreases self,
    {
        &&& self.bindings.len() == 0
        &&& forall|i: int|
            0 <= i < self.children.len() ==> (#[trigger] self.children[i]).no_bindings()
    }

    /// Whether `id` occurs anywhere in the subtree.
    pub open spec fn contains_id(self, id: u32) -> bool
        decreases self,
    {
        self.id == id || exists|i: int|
            0 <= i < self.children.len() && (#[trigger] self.children[i]).contains_id(id)
    }

    /// `p` holds of every node of the subtree whose identifier is `id`
    /// (vacuously true where `id` does not occur).
    pub open spec fn holds_at(self, id: u32, p: spec_fn(NodeView) -> bool) -> bool
        decreases self,
    {
        if self.id == id {
            p(self)
        } else {
            forall|i: int|
                0 <= i < self.children.len() ==> (#[trigger] self.children[i]).holds_at(id, p)
        }
    }

    /// Every accelerator in the subtree has a platform representation.
    pub open spec fn accels_ok(self) -> bool
        decreases self,
    {
        &&& (self.accelerator is Some ==> spec_parse(self.accelerator->0) is Some)
        &&& forall|i: int|
            0 <= i < self.children.len() ==> (#[trigger] self.children[i]).accels_ok()
    }

    /// The subtree with every native binding torn down and nothing else
    /// changed: what a recursive teardown leaves behind.
    pub open spec fn strip(self) -> NodeView
        decreases self,
    {
        NodeView {
            bindings: Seq::empty(),
            children: Seq::new(
                self.children.len(),
                |i: int|
                    if 0 <= i < self.children.len() {
                        self.children[i].strip()
                    } else {
                        self.children[i]
                    },
            ),
            ..self
        }
    }
}

/// Whether `id` occurs anywhere in a child sequence.
pub open spec fn seq_contains_id(s: Seq<NodeView>, id: u32) -> bool {
    exists|i: int| 0 <= i < s.len() && (#[trigger] s[i]).contains_id(id)
}

/// `p` holds wherever `id` occurs in a child sequence.
pub open spec fn seq_holds_at(s: Seq<NodeView>, id: u32, p: spec_fn(NodeView) -> bool) -> bool {
    forall|i: int| 0 <= i < s.len() ==> (#[trigger] s[i]).holds_at(id, p)
}

/// The tree with the subtree rooted at the node with identifier `id`
/// replaced by `f` of that subtree, and nothing else changed.  The search
/// stops at the first occurrence along each path.
pub open spec fn vupdate(v: NodeView, id: u32, f: spec_fn(NodeView) -> NodeView) -> NodeView
    decreases v,
{
    if v.id == id {
        f(v)
    } else {
        NodeView { children: vupdate_seq(v.children, id, f), ..v }
    }
}

/// `vupdate` applied across a child sequence.
pub open spec fn vupdate_seq(s: Seq<NodeView>, id: u32, f: spec_fn(NodeView) -> NodeView) -> Seq<
    NodeView,
>
    decreases s,
{
    Seq::new(
        s.len(),
        |i: int|
            if 0 <= i < s.len() {
                vupdate(s[i], id, f)
            } else {
                s[i]
            },
    )
}

/// What an application-driven checked-state write does to a check node:
/// canonical value and every native projection take the value, and the
/// reentrancy guard ends idle.  No event is produced on this path.
pub open spec fn set_checked_f(val: bool) -> spec_fn(NodeView) -> NodeView {
    |n: NodeView|
        NodeView {
            checked: val,
            syncing: false,
            bindings: n.bindings.map_values(|b: BView| BView { checked: val, ..b }),
            ..n
        }
}

/// What a native toggle callback does to a check node: ignored while the
/// reentrancy guard is held; otherwise the toggled value becomes canonical
/// and is propagated to every native projection.
pub open spec fn toggle_f(val: bool) -> spec_fn(NodeView) -> NodeView {
    |n: NodeView|
        if n.syncing {
            n
        } else {
            NodeView {
                checked: val,
                syncing: false,
                bindings: n.bindings.map_values(|b: BView| BView { checked: val, ..b }),
                ..n
            }
        }
}

/// What a text change does: the canonical text and every native label.
pub open spec fn set_text_f(t: Seq<char>) -> spec_fn(NodeView) -> NodeView {
    |n: NodeView|
        NodeView { text: t, bindings: n.bindings.map_values(|b: BView| BView { text: t, ..b }), ..n }
}

/// What an enabled change does: the canonical flag and every native widget's
/// sensitivity.
pub open spec fn set_enabled_f(e: bool) -> spec_fn(NodeView) -> NodeView {
    |n: NodeView|
        NodeView {
            enabled: e,
            bindings: n.bindings.map_values(|b: BView| BView { enabled: e, ..b }),
            ..n
        }
}

/// What an icon change does: the canonical icon and every native widget's
/// image, across every surface showing the node.
pub open spec fn set_icon_f(ic: Option<IconView>) -> spec_fn(NodeView) -> NodeView {
    |n: NodeView|
        NodeView { icon: ic, bindings: n.bindings.map_values(|b: BView| BView { icon: ic, ..b }), ..n }
}

/// What an accelerator change does: the abstract accelerator and its cached
/// parse become the new spec's, and every surface's registration is replaced
/// (removed, where the new spec is `None`).
pub open spec fn set_accel_f(a: Option<Accelerator>) -> spec_fn(NodeView) -> NodeView {
    |n: NodeView|
        NodeView {
            accelerator: a,
            parsed: popt(a),
            bindings: n.bindings.map_values(|b: BView| BView { accel: popt(a), ..b }),
            ..n
        }
}

/// Whether an optional accelerator is present but has no platform
/// representation: the exact condition under which accelerator changes and
/// materializations fail.
pub open spec fn accel_unrepresentable(a: Option<Accelerator>) -> bool {
    match a {
        Option::Some(x) => spec_parse(x) is None,
        Option::None => false,
    }
}

/// The native projection of node `n` onto surface `s`: a fresh widget
/// reflecting the node's current text, enabled, checked, icon and
/// accelerator state.
pub open spec fn bview_of(n: NodeView, s: u32) -> BView {
    BView {
        surface: s,
        checked: n.checked,
        text: n.text,
        enabled: n.enabled,
        icon: n.icon,
        accel: popt(n.accelerator),
    }
}

/// The subtree with one more surface attached: every node gains one native
/// projection for `s`, after its existing ones, and caches its parsed
/// accelerator.
pub open spec fn mat_add(n: NodeView, s: u32) -> NodeView
    decreases n,
{
    NodeView {
        bindings: n.bindings.push(bview_of(n, s)),
        parsed: popt(n.accelerator),
        children: Seq::new(
            n.children.len(),
            |i: int|
                if 0 <= i < n.children.len() {
                    mat_add(n.children[i], s)
                } else {
                    n.children[i]
                },
        ),
        ..n
    }
}

/// A fresh subtree materialized onto the surfaces `keys`, in order: what a
/// structural insertion creates for an item that held no bindings.
pub open spec fn mat_fresh(n: NodeView, keys: Seq<u32>) -> NodeView
    decreases n,
{
    NodeView {
        bindings: Seq::new(keys.len(), |i: int| bview_of(n, keys[i])),
        parsed: popt(n.accelerator),
        children: Seq::new(
            n.children.len(),
            |i: int|
                if 0 <= i < n.children.len() {
                    mat_fresh(n.children[i], keys)
                } else {
                    n.children[i]
                },
        ),
        ..n
    }
}

/// The surface key of a binding.
pub open spec fn surf_of() -> spec_fn(BView) -> u32 {
    |b: BView| b.surface
}

/// Keeps the bindings of every surface but `s`: the teardown predicate.
pub open spec fn keeps_surface(s: u32) -> spec_fn(BView) -> bool {
    |b: BView| b.surface != s
}

/// Keeps the surface keys other than `s`.
pub open spec fn key_ne(s: u32) -> spec_fn(u32) -> bool {
    |k: u32| k != s
}

/// The subtree with surface `s` detached: every node loses exactly its
/// projections for `s`; canonical state and other surfaces are untouched.
pub open spec fn unmat(n: NodeView, s: u32) -> NodeView
    decreases n,
{
    NodeView {
        bindings: n.bindings.filter(keeps_surface(s)),
        children: Seq::new(
            n.children.len(),
            |i: int|
                if 0 <= i < n.children.len() {
                    unmat(n.children[i], s)
                } else {
                    n.children[i]
                },
        ),
        ..n
    }
}

/// The identifiers pushed onto the event channel by a native toggle
/// callback for `id` with the tree in state `v`: one event from each
/// reached node carrying `id` whose reentrancy guard is idle, none from one
/// whose guard is held.
pub open spec fn toggle_events(v: NodeView, id: u32) -> Seq<u32>
    decreases v,
{
    if v.id == id {
        if v.syncing {
            Seq::empty()
        } else {
            seq![v.id]
        }
    } else {
        toggle_events_seq(v.children, id)
    }
}

/// `toggle_events` across a child sequence, in order.
pub open spec fn toggle_events_seq(s: Seq<NodeView>, id: u32) -> Seq<u32>
    decreases s,
{
    if s.len() == 0 {
        Seq::empty()
    } else {
        toggle_events_seq(s.drop_last(), id) + toggle_events(s.last(), id)
    }
}

/// How many nodes carrying `id` the by-identifier traversal reaches (the
/// traversal does not descend below a reached node).
pub open spec fn match_count(v: NodeView, id: u32) -> nat
    decreases v,
{
    if v.id == id {
        1
    } else {
        match_count_seq(v.children, id)
    }
}

/// `match_count` summed across a child sequence.
pub open spec fn match_count_seq(s: Seq<NodeView>, id: u32) -> nat
    decreases s,
{
    if s.len() == 0 {
        0
    } else {
        match_count_seq(s.drop_last(), id) + match_count(s.last(), id)
    }
}

/// The property that a node is not a platform-standard item, whose
/// accelerator hint is fixed.
pub open spec fn not_predefined_p() -> spec_fn(NodeView) -> bool {
    |n: NodeView| !(n.item_type is Predefined)
}

/// Whether this target silently skips an item added to a composite: a
/// platform-standard subtype with no native form here.
pub open spec fn predefined_skip(v: NodeView) -> bool {
    v.item_type is Predefined && !match v.predefined_item_type {
        PredefinedMenuItemType::Separator => true,
        PredefinedMenuItemType::Copy => true,
        PredefinedMenuItemType::Cut => true,
        PredefinedMenuItemType::Paste => true,
        PredefinedMenuItemType::SelectAll => true,
        PredefinedMenuItemType::About => true,
        PredefinedMenuItemType::Minimize => false,
        PredefinedMenuItemType::Quit => false,
    }
}

/// Where an insertion lands in a child list of the given length.
pub open spec fn pos_of(op: crate::util::AddOp, len: nat) -> int {
    match op {
        crate::util::AddOp::Append => len as int,
        crate::util::AddOp::Insert(p) => p as int,
    }
}

/// The position of the first direct child with identifier `cid`, or `-1`.
pub open spec fn child_index(s: Seq<NodeView>, cid: u32) -> int
    decreases s,
{
    if s.len() == 0 {
        -1
    } else if s[0].id == cid {
        0
    } else if child_index(s.drop_first(), cid) < 0 {
        -1
    } else {
        1 + child_index(s.drop_first(), cid)
    }
}

/// Whether a direct child with identifier `cid` exists.
pub open spec fn has_child(s: Seq<NodeView>, cid: u32) -> bool {
    exists|i: int| 0 <= i < s.len() && (#[trigger] s[i]).id == cid
}

/// No two direct children share an identifier: the slice of the
/// identifier-uniqueness invariant that removal by identifier relies on.
/// Trees whose identifiers all come from one counter have it.
pub open spec fn distinct_child_ids(s: Seq<NodeView>) -> bool {
    forall|p: int, q: int|
        #![trigger s[p], s[q]]
        0 <= p < q < s.len() ==> s[p].id != s[q].id
}

/// `child_index` finds exactly the first direct child carrying `cid`, and
/// `-1` exactly when there is none.
pub proof fn lemma_child_index(s: Seq<NodeView>, cid: u32)
    ensures
        has_child(s, cid) ==> 0 <= child_index(s, cid) < s.len() && s[child_index(s, cid)].id
            == cid && (forall|j: int| 0 <= j < child_index(s, cid) ==> s[j].id != cid),
        !has_child(s, cid) ==> child_index(s, cid) == -1,
    decreases s.len(),
{
    if s.len() > 0 && s[0].id != cid {
        lemma_child_index(s.drop_first(), cid);
        if has_child(s, cid) {
            let j = choose|j: int| 0 <= j < s.len() && (#[trigger] s[j]).id == cid;
            assert(s.drop_first()[j - 1] == s[j]);
            assert(has_child(s.drop_first(), cid));
        }
        if has_child(s.drop_first(), cid) {
            let j = choose|j: int|
                0 <= j < s.drop_first().len() && (#[trigger] s.drop_first()[j]).id == cid;
            assert(s[j + 1] == s.drop_first()[j]);
            assert(has_child(s, cid));
        }
        if has_child(s, cid) {
            let k = child_index(s.drop_first(), cid);
            assert(child_index(s, cid) == 1 + k);
            assert(s[1 + k] == s.drop_first()[k]);
            assert forall|j: int| 0 <= j < 1 + k implies s[j].id != cid by {
                if j > 0 {
                    assert(s.drop_first()[j - 1] == s[j]);
                }
            }
        }
    }
}

/// Materializing a fresh subtree preserves well-formedness and binds every
/// node to exactly the given surfaces.
pub proof fn lemma_mat_fresh_wf(v: NodeView, keys: Seq<u32>)
    ensures
        v.wf() ==> mat_fresh(v, keys).wf(),
        mat_fresh(v, keys).keys_ok(keys),
    decreases v,
{
    let m = mat_fresh(v, keys);
    assert(m.binding_surfaces() =~= keys);
    assert forall|i: int| 0 <= i < m.children.len() implies (#[trigger] m.children[i]).keys_ok(
        keys,
    ) && (v.wf() ==> m.children[i].wf()) by {
        lemma_mat_fresh_wf(v.children[i], keys);
    }
}

/// Attaching one more surface preserves well-formedness and extends every
/// node's binding list by exactly that surface.
pub proof fn lemma_mat_add(v: NodeView, s: u32, keys: Seq<u32>)
    ensures
        v.wf() ==> mat_add(v, s).wf(),
        v.keys_ok(keys) ==> mat_add(v, s).keys_ok(keys.push(s)),
    decreases v,
{
    let m = mat_add(v, s);
    assert(m.binding_surfaces() =~= v.binding_surfaces().push(s));
    assert forall|i: int| 0 <= i < m.children.len() implies ((v.wf() ==> (
    #[trigger] m.children[i]).wf()) && (v.keys_ok(keys) ==> m.children[i].keys_ok(
        keys.push(s),
    ))) by {
        lemma_mat_add(v.children[i], s, keys);
    }
}

/// Filtering bindings by surface commutes with projecting the surface keys.
pub proof fn lemma_filter_map_surfaces(bs: Seq<BView>, s: u32)
    ensures
        bs.filter(keeps_surface(s)).map_values(surf_of()) == bs.map_values(surf_of()).filter(
            key_ne(s),
        ),
    decreases bs.len(),
{
    reveal(Seq::filter);
    let m = bs.map_values(surf_of());
    if bs.len() == 0 {
        assert(m =~= Seq::<u32>::empty());
        assert(bs.filter(keeps_surface(s)).map_values(surf_of()) =~= m.filter(key_ne(s)));
    } else {
        lemma_filter_map_surfaces(bs.drop_last(), s);
        assert(m.drop_last() =~= bs.drop_last().map_values(surf_of()));
        assert(m.last() == bs.last().surface);
        if bs.last().surface != s {
            assert(bs.filter(keeps_surface(s)) == bs.drop_last().filter(keeps_surface(s)).push(
                bs.last(),
            ));
            assert(bs.filter(keeps_surface(s)).map_values(surf_of()) =~= bs.drop_last().filter(
                keeps_surface(s),
            ).map_values(surf_of()).push(bs.last().surface));
            assert(m.filter(key_ne(s)) == m.drop_last().filter(key_ne(s)).push(m.last()));
            assert(bs.filter(keeps_surface(s)).map_values(surf_of()) =~= m.filter(key_ne(s)));
        } else {
            assert(bs.filter(keeps_surface(s)) == bs.drop_last().filter(keeps_surface(s)));
            assert(m.filter(key_ne(s)) == m.drop_last().filter(key_ne(s)));
        }
    }
}

/// Detaching a surface preserves well-formedness and removes exactly that
/// surface from every node's binding list.
pub proof fn lemma_unmat(v: NodeView, s: u32, keys: Seq<u32>)
    ensures
        v.wf() ==> unmat(v, s).wf(),
        v.keys_ok(keys) ==> unmat(v, s).keys_ok(keys.filter(key_ne(s))),
    decreases v,
{
    let m = unmat(v, s);
    lemma_filter_map_surfaces(v.bindings, s);
    assert(m.binding_surfaces() == v.binding_surfaces().filter(key_ne(s)));
    assert forall|i: int| 0 <= i < m.children.len() implies ((v.wf() ==> (
    #[trigger] m.children[i]).wf()) && (v.keys_ok(keys) ==> m.children[i].keys_ok(
        keys.filter(key_ne(s)),
    ))) by {
        lemma_unmat(v.children[i], s, keys);
    }
}

/// A sequence without `s` is unchanged by filtering `s` out.
pub proof fn lemma_filter_id_absent(keys: Seq<u32>, s: u32)
    requires
        forall|j: int| 0 <= j < keys.len() ==> keys[j] != s,
    ensures
        keys.filter(key_ne(s)) == keys,
    decreases keys.len(),
{
    reveal(Seq::filter);
    if keys.len() > 0 {
        lemma_filter_id_absent(keys.drop_last(), s);
        assert(keys.filter(key_ne(s)) =~= keys);
    } else {
        assert(keys.filter(key_ne(s)) =~= keys);
    }
}

/// In a duplicate-free key sequence, removing the entry holding `s` is the
/// same as filtering `s` out; the result is duplicate-free again.
pub proof fn lemma_remove_filter_unique(keys: Seq<u32>, i: int, s: u32)
    requires
        keys.no_duplicates(),
        0 <= i < keys.len(),
        keys[i] == s,
    ensures
        keys.remove(i) == keys.filter(key_ne(s)),
        keys.remove(i).no_duplicates(),
{
    reveal(Seq::filter);
    let a = keys.subrange(0, i);
    let b = keys.subrange(i, i + 1);
    let c = keys.subrange(i + 1, keys.len() as int);
    assert(keys =~= a + b + c);
    Seq::filter_distributes_over_add(a + b, c, key_ne(s));
    Seq::filter_distributes_over_add(a, b, key_ne(s));
    assert(b.filter(key_ne(s)) =~= Seq::<u32>::empty()) by {
        assert(b.len() == 1 && b.last() == s);
        assert(b.drop_last().filter(key_ne(s)) =~= Seq::<u32>::empty());
    }
    lemma_filter_id_absent(a, s);
    lemma_filter_id_absent(c, s);
    assert(keys.filter(key_ne(s)) == (a + b + c).filter(key_ne(s)));
    assert((a + b + c).filter(key_ne(s)) =~= a + c);
    assert(keys.remove(i) =~= a + c);
    assert forall|p: int, q: int|
        0 <= p < q < keys.remove(i).len() implies keys.remove(i)[p] != keys.remove(i)[q] by {
        let kp: int = if p < i {
            p
        } else {
            p + 1
        };
        let kq: int = if q < i {
            q
        } else {
            q + 1
        };
        assert(keys.remove(i)[p] == keys[kp]);
        assert(keys.remove(i)[q] == keys[kq]);
    }
}

/// A by-identifier update whose transformer touches neither identifiers,
/// children nor binding surfaces preserves well-formedness and the surface
/// invariant.
pub proof fn lemma_vupdate_leaf(
    v: NodeView,
    id: u32,
    f: spec_fn(NodeView) -> NodeView,
    keys: Seq<u32>,
)
    requires
        forall|n: NodeView| (#[trigger] f(n)).children == n.children,
        forall|n: NodeView| (#[trigger] f(n)).binding_surfaces() == n.binding_surfaces(),
        forall|n: NodeView| n.wf_local() ==> (#[trigger] f(n)).wf_local(),
    ensures
        v.wf() ==> vupdate(v, id, f).wf(),
        v.keys_ok(keys) ==> vupdate(v, id, f).keys_ok(keys),
    decreases v,
{
    let m = vupdate(v, id, f);
    if v.id == id {
        assert(f(v).children == v.children);
    } else {
        assert forall|i: int| 0 <= i < m.children.len() implies ((v.wf() ==> (
        #[trigger] m.children[i]).wf()) && (v.keys_ok(keys) ==> m.children[i].keys_ok(keys))) by {
            assert(m.children[i] == vupdate(v.children[i], id, f));
            lemma_vupdate_leaf(v.children[i], id, f, keys);
        }
    }
}

/// A by-identifier update of an identifier that does not occur changes
/// nothing.
pub proof fn lemma_vupdate_absent(v: NodeView, id: u32, f: spec_fn(NodeView) -> NodeView)
    requires
        !v.contains_id(id),
    ensures
        vupdate(v, id, f) == v,
    decreases v,
{
    assert forall|i: int| 0 <= i < v.children.len() implies vupdate(
        #[trigger] v.children[i],
        id,
        f,
    ) == v.children[i] by {
        assert(!v.children[i].contains_id(id));
        lemma_vupdate_absent(v.children[i], id, f);
    }
    assert(vupdate(v, id, f).children =~= v.children);
    assert(vupdate(v, id, f) =~= v);
}

/// The property that a node is a composite able to hold children.
pub open spec fn is_submenu_p() -> spec_fn(NodeView) -> bool {
    |n: NodeView| n.item_type is Submenu
}

/// The property that a node is a check item, the only kind carrying a
/// checked state.
pub open spec fn is_check_p() -> spec_fn(NodeView) -> bool {
    |n: NodeView| n.item_type is Check
}

/// The property that an insertion position fits a node's child list.
pub open spec fn insert_ok_p(op: crate::util::AddOp) -> spec_fn(NodeView) -> bool {
    |n: NodeView|
        match op {
            crate::util::AddOp::Append => true,
            crate::util::AddOp::Insert(p) => p <= n.children.len(),
        }
}

/// What inserting `item` into a composite does: the item's subtree is
/// materialized onto exactly the surfaces showing the composite and placed
/// at the operation's position in the canonical child list.
pub open spec fn add_child_f(item: NodeView, op: crate::util::AddOp) -> spec_fn(
    NodeView,
) -> NodeView {
    |n: NodeView|
        NodeView {
            children: n.children.insert(
                pos_of(op, n.children.len()),
                mat_fresh(item, n.binding_surfaces()),
            ),
            ..n
        }
}

/// The property that a composite has no direct child carrying `cid`.
pub open spec fn no_child_p(cid: u32) -> spec_fn(NodeView) -> bool {
    |n: NodeView| !has_child(n.children, cid)
}

/// What removing the direct child `cid` from a composite does: the child's
/// canonical entry disappears, its whole subtree's native handles with it;
/// a composite without such a child is untouched.
pub open spec fn rm_child_f(cid: u32) -> spec_fn(NodeView) -> NodeView {
    |n: NodeView|
        if has_child(n.children, cid) {
            NodeView { children: n.children.remove(child_index(n.children, cid)), ..n }
        } else {
            n
        }
}

/// Any property holds at an identifier that does not occur.
pub proof fn lemma_absent_holds(v: NodeView, id: u32, p: spec_fn(NodeView) -> bool)
    requires
        !v.contains_id(id),
    ensures
        v.holds_at(id, p),
    decreases v,
{
    assert forall|i: int| 0 <= i < v.children.len() implies (#[trigger] v.children[i]).holds_at(
        id,
        p,
    ) by {
        assert(!v.children[i].contains_id(id));
        lemma_absent_holds(v.children[i], id, p);
    }
}

/// Inserting a well-formed item at composites carrying `id` preserves
/// well-formedness and the surface invariant: the new subtree is bound to
/// exactly the surfaces the composite was.
pub proof fn lemma_vupdate_add(
    v: NodeView,
    id: u32,
    item: NodeView,
    op: crate::util::AddOp,
    keys: Seq<u32>,
)
    requires
        item.wf(),
        v.holds_at(id, is_submenu_p()),
        v.holds_at(id, insert_ok_p(op)),
    ensures
        v.wf() && v.keys_ok(keys) ==> vupdate(v, id, add_child_f(item, op)).wf() && vupdate(
            v,
            id,
            add_child_f(item, op),
        ).keys_ok(keys),
    decreases v,
{
    let f = add_child_f(item, op);
    let m = vupdate(v, id, f);
    if v.wf() && v.keys_ok(keys) {
        if v.id == id {
            assert((is_submenu_p())(v));
            assert((insert_ok_p(op))(v));
            let pos = pos_of(op, v.children.len());
            let fresh = mat_fresh(item, v.binding_surfaces());
            lemma_mat_fresh_wf(item, v.binding_surfaces());
            assert(m == f(v));
            assert(m.binding_surfaces() == keys);
            assert forall|i: int| 0 <= i < m.children.len() implies (#[trigger] m.children[i]).wf()
                && m.children[i].keys_ok(keys) by {
                if i < pos {
                    assert(m.children[i] == v.children[i]);
                } else if i == pos {
                    assert(m.children[i] == fresh);
                } else {
                    assert(m.children[i] == v.children[i - 1]);
                }
            }
        } else {
            assert forall|i: int| 0 <= i < m.children.len() implies (#[trigger] m.children[i]).wf()
                && m.children[i].keys_ok(keys) by {
                assert(m.children[i] == vupdate(v.children[i], id, f));
                assert(v.children[i].holds_at(id, is_submenu_p()));
                assert(v.children[i].holds_at(id, insert_ok_p(op)));
                lemma_vupdate_add(v.children[i], id, item, op, keys);
            }
        }
    }
}

/// Removing a direct child at composites carrying `id` preserves
/// well-formedness and the surface invariant.
pub proof fn lemma_vupdate_rm(v: NodeView, id: u32, cid: u32, keys: Seq<u32>)
    ensures
        v.wf() && v.keys_ok(keys) ==> vupdate(v, id, rm_child_f(cid)).wf() && vupdate(
            v,
            id,
            rm_child_f(cid),
        ).keys_ok(keys),
    decreases v,
{
    let f = rm_child_f(cid);
    let m = vupdate(v, id, f);
    if v.wf() && v.keys_ok(keys) {
        if v.id == id {
            if has_child(v.children, cid) {
                lemma_child_index(v.children, cid);
                let ci = child_index(v.children, cid);
                assert forall|i: int| 0 <= i < m.children.len() implies (
                #[trigger] m.children[i]).wf() && m.children[i].keys_ok(keys) by {
                    if i < ci {
                        assert(m.children[i] == v.children[i]);
                    } else {
                        assert(m.children[i] == v.children[i + 1]);
                    }
                }
            }
        } else {
            assert forall|i: int| 0 <= i < m.children.len() implies (#[trigger] m.children[i]).wf()
                && m.children[i].keys_ok(keys) by {
                assert(m.children[i] == vupdate(v.children[i], id, f));
                lemma_vupdate_rm(v.children[i], id, cid, keys);
            }
        }
    }
}

/// Stripping keeps well-formedness, tears down every binding in the
/// subtree, and touches nothing canonical.
pub proof fn lemma_strip(v: NodeView)
    ensures
        v.wf() ==> v.strip().wf(),
        v.strip().no_bindings(),
        v.strip().keys_ok(Seq::empty()),
    decreases v,
{
    let m = v.strip();
    assert(m.binding_surfaces() =~= Seq::<u32>::empty());
    assert forall|i: int| 0 <= i < m.children.len() implies ((v.wf() ==> (
    #[trigger] m.children[i]).wf()) && m.children[i].no_bindings() && m.children[i].keys_ok(
        Seq::empty(),
    )) by {
        lemma_strip(v.children[i]);
    }
}

} // verus!
