//! The engine's synchronization guarantees, stated and proved once over
//! the model: every attached surface mirrors the canonical tree, detaching
//! a surface disturbs neither the canonical tree nor any other surface,
//! checked-state writes converge on every projection, the reentrancy guard
//! silences echo callbacks, an idle toggle dispatches exactly one event,
//! teardown leaves no native binding behind, and clearing an accelerator
//! leaves no registration on any surface.

use vstd::prelude::*;

use crate::child::node_view;
use crate::model::{
    child_index, distinct_child_ids, has_child, keeps_surface, lemma_child_index, lemma_strip, mat_add, mat_fresh,
    match_count, match_count_seq, popt, set_accel_f, set_checked_f, toggle_events,
    toggle_events_seq, toggle_f, unmat, vupdate, vupdate_seq, BView, NodeView,
};
use crate::menu::MenuView;

verus! {

/// The nodes of a child list that surface `s` shows, by identifier and in
/// order: what can be recovered from the surface's native projection.
pub open spec fn shows_on(s: u32) -> spec_fn(NodeView) -> bool {
    |n: NodeView| n.binding_surfaces().contains(s)
}

/// The ordered identifier sequence recoverable from surface `s`'s native
/// projection of a child list.
pub open spec fn projection_ids(children: Seq<NodeView>, s: u32) -> Seq<u32> {
    children.filter(shows_on(s)).map_values(|n: NodeView| n.id)
}

/// A check node whose canonical state and every native projection show
/// `val`.
pub open spec fn checked_shown_p(val: bool) -> spec_fn(NodeView) -> bool {
    |n: NodeView|
        n.checked == val && forall|j: int|
            0 <= j < n.bindings.len() ==> (#[trigger] n.bindings[j]).checked == val
}

/// A node whose reentrancy guard is idle.
pub open spec fn idle_p() -> spec_fn(NodeView) -> bool {
    |n: NodeView| !n.syncing
}

/// A node whose reentrancy guard is held.
pub open spec fn syncing_p() -> spec_fn(NodeView) -> bool {
    |n: NodeView| n.syncing
}

/// A node with no accelerator: none cached, and none registered in any
/// surface's accelerator table.
pub open spec fn no_accel_p() -> spec_fn(NodeView) -> bool {
    |n: NodeView|
        n.accelerator is None && n.parsed is None && forall|j: int|
            0 <= j < n.bindings.len() ==> (#[trigger] n.bindings[j]).accel is None
}

/// The trivial property.
pub open spec fn true_p() -> spec_fn(NodeView) -> bool {
    |n: NodeView| true
}

/// The bindings for surface `s`.
pub open spec fn is_surface(s: u32) -> spec_fn(BView) -> bool {
    |b: BView| b.surface == s
}

/// Every native binding that surface `s` holds anywhere in a subtree, in
/// depth-first order: the whole of `s`'s projection of that subtree.
pub open spec fn surface_bindings(n: NodeView, s: u32) -> Seq<BView>
    decreases n,
{
    n.bindings.filter(is_surface(s)) + surface_bindings_seq(n.children, s)
}

/// `surface_bindings` across a child list.
pub open spec fn surface_bindings_seq(c: Seq<NodeView>, s: u32) -> Seq<BView>
    decreases c,
{
    if c.len() == 0 {
        Seq::empty()
    } else {
        surface_bindings_seq(c.drop_last(), s) + surface_bindings(c.last(), s)
    }
}

/// Filtering a child list by a property every element has changes nothing.
proof fn lemma_filter_all(s: Seq<NodeView>, pred: spec_fn(NodeView) -> bool)
    requires
        forall|i: int| 0 <= i < s.len() ==> pred(#[trigger] s[i]),
    ensures
        s.filter(pred) == s,
    decreases s.len(),
{
    reveal(Seq::filter);
    if s.len() > 0 {
        lemma_filter_all(s.drop_last(), pred);
        assert(s.filter(pred) =~= s);
    } else {
        assert(s.filter(pred) =~= s);
    }
}

/// LAW: every attached surface's native projection mirrors the canonical
/// child list.  After any sequence of operations that keeps a menu
/// well-formed (every operation of `Menu` does), the ordered identifier
/// sequence recoverable from any attached surface's projection equals the
/// canonical one.
pub proof fn lemma_projection_matches_canonical(m: MenuView, s: u32)
    requires
        m.wf(),
        m.attached(s),
    ensures
        projection_ids(m.children, s) == m.child_ids(),
{
    let i = choose|i: int| 0 <= i < m.surfaces.len() && (#[trigger] m.surfaces[i]).key == s;
    assert(m.surface_keys()[i] == s);
    assert(m.surface_keys().contains(s));
    assert forall|j: int| 0 <= j < m.children.len() implies (shows_on(s))(
        #[trigger] m.children[j],
    ) by {
        assert(m.children[j].keys_ok(m.surface_keys()));
        assert(m.children[j].binding_surfaces() == m.surface_keys());
    }
    lemma_filter_all(m.children, shows_on(s));
    assert(projection_ids(m.children, s) =~= m.child_ids());
}

/// The same mirroring holds inside any composite node: a composite bound
/// to the menu's surfaces has each child bound to them too, so each
/// surface's projection of its child list equals the canonical one.
pub proof fn lemma_node_projection(n: NodeView, keys: Seq<u32>, s: u32)
    requires
        n.keys_ok(keys),
        keys.contains(s),
    ensures
        projection_ids(n.children, s) == n.children.map_values(|c: NodeView| c.id),
{
    assert forall|j: int| 0 <= j < n.children.len() implies (shows_on(s))(
        #[trigger] n.children[j],
    ) by {
        assert(n.children[j].keys_ok(keys));
    }
    lemma_filter_all(n.children, shows_on(s));
    assert(projection_ids(n.children, s) =~= n.children.map_values(|c: NodeView| c.id));
}

/// Filtering out surface `s` does not disturb the bindings of any other
/// surface.
proof fn lemma_filter_keeps_other(bs: Seq<BView>, s: u32, s2: u32)
    requires
        s2 != s,
    ensures
        bs.filter(keeps_surface(s)).filter(is_surface(s2)) == bs.filter(is_surface(s2)),
    decreases bs.len(),
{
    reveal(Seq::filter);
    if bs.len() == 0 {
        assert(bs.filter(keeps_surface(s)).filter(is_surface(s2)) =~= bs.filter(is_surface(s2)));
    } else {
        lemma_filter_keeps_other(bs.drop_last(), s, s2);
        let b = bs.last();
        if b.surface != s {
            assert(bs.filter(keeps_surface(s)) == bs.drop_last().filter(keeps_surface(s)).push(b));
            assert(bs.filter(keeps_surface(s)).drop_last() =~= bs.drop_last().filter(
                keeps_surface(s),
            ));
        }
    }
}

/// LAW (canonical half): detaching a surface leaves the canonical tree
/// untouched: the trees agree once all bindings are erased.
pub proof fn lemma_detach_preserves_canonical(n: NodeView, s: u32)
    ensures
        unmat(n, s).strip() == n.strip(),
    decreases n,
{
    assert forall|i: int| 0 <= i < n.children.len() implies unmat(
        #[trigger] n.children[i],
        s,
    ).strip() == n.children[i].strip() by {
        lemma_detach_preserves_canonical(n.children[i], s);
    }
    assert(unmat(n, s).strip().children =~= n.strip().children);
    assert(unmat(n, s).strip() =~= n.strip());
}

/// LAW (other-surface half): detaching surface `s` leaves every other
/// surface's projection of the whole subtree exactly as it was.
pub proof fn lemma_detach_preserves_other_surfaces(n: NodeView, s: u32, s2: u32)
    requires
        s2 != s,
    ensures
        surface_bindings(unmat(n, s), s2) == surface_bindings(n, s2),
    decreases n,
{
    lemma_filter_keeps_other(n.bindings, s, s2);
    let m = unmat(n, s);
    assert(surface_bindings_seq(m.children, s2) == surface_bindings_seq(n.children, s2)) by {
        lemma_detach_preserves_other_surfaces_seq(n.children, s, s2);
        assert(m.children =~= n.children.map_values(|c: NodeView| unmat(c, s)));
    }
}

proof fn lemma_detach_preserves_other_surfaces_seq(c: Seq<NodeView>, s: u32, s2: u32)
    requires
        s2 != s,
    ensures
        surface_bindings_seq(c.map_values(|n: NodeView| unmat(n, s)), s2) == surface_bindings_seq(
            c,
            s2,
        ),
    decreases c,
{
    let mc = c.map_values(|n: NodeView| unmat(n, s));
    if c.len() == 0 {
        assert(mc =~= Seq::<NodeView>::empty());
    } else {
        lemma_detach_preserves_other_surfaces_seq(c.drop_last(), s, s2);
        lemma_detach_preserves_other_surfaces(c.last(), s, s2);
        assert(mc.drop_last() =~= c.drop_last().map_values(|n: NodeView| unmat(n, s)));
        assert(mc.last() == unmat(c.last(), s));
    }
}

/// A property holds at `id` throughout a tree after a by-identifier update
/// whenever the transformer turns the property the tree had there into it.
pub proof fn lemma_vupdate_holds(
    v: NodeView,
    id: u32,
    f: spec_fn(NodeView) -> NodeView,
    q: spec_fn(NodeView) -> bool,
    p: spec_fn(NodeView) -> bool,
)
    requires
        v.holds_at(id, q),
        forall|n: NodeView| q(n) ==> #[trigger] p(f(n)),
        forall|n: NodeView| (#[trigger] f(n)).id == n.id,
    ensures
        vupdate(v, id, f).holds_at(id, p),
    decreases v,
{
    let m = vupdate(v, id, f);
    if v.id == id {
        assert(q(v));
        assert(p(f(v)));
        assert(m.id == id);
    } else {
        assert forall|i: int| 0 <= i < m.children.len() implies (#[trigger] m.children[i]).holds_at(
            id,
            p,
        ) by {
            assert(m.children[i] == vupdate(v.children[i], id, f));
            assert(v.children[i].holds_at(id, q));
            lemma_vupdate_holds(v.children[i], id, f, q, p);
        }
    }
}

/// The trivial property holds at any identifier in any tree.
pub proof fn lemma_holds_at_true(v: NodeView, id: u32)
    ensures
        v.holds_at(id, true_p()),
    decreases v,
{
    if v.id != id {
        assert forall|i: int| 0 <= i < v.children.len() implies (#[trigger] v.children[i]).holds_at(
            id,
            true_p(),
        ) by {
            lemma_holds_at_true(v.children[i], id);
        }
    }
}

/// LAW: an application-driven checked-state write converges everywhere.
/// After updating a tree with `set_checked_f(val)` at `id`, every node
/// carrying `id` shows `val` canonically and in every one of its native
/// projections, on every surface.  (This path takes no event channel, so
/// it can produce no event.)
pub proof fn lemma_set_checked_syncs(v: NodeView, id: u32, val: bool)
    ensures
        vupdate(v, id, set_checked_f(val)).holds_at(id, checked_shown_p(val)),
{
    lemma_holds_at_true(v, id);
    assert forall|n: NodeView| (true_p())(n) implies #[trigger] (checked_shown_p(val))(
        (set_checked_f(val))(n),
    ) by {
        let m = (set_checked_f(val))(n);
        assert forall|j: int| 0 <= j < m.bindings.len() implies (#[trigger] m.bindings[j]).checked
            == val by {
            assert(m.bindings[j] == (BView { checked: val, ..n.bindings[j] }));
        }
    }
    lemma_vupdate_holds(v, id, set_checked_f(val), true_p(), checked_shown_p(val));
}

/// No node carrying `id` is reached: the toggle traversal finds nothing,
/// so it dispatches nothing.
proof fn lemma_no_match_no_events(v: NodeView, id: u32)
    requires
        match_count(v, id) == 0,
    ensures
        toggle_events(v, id) == Seq::<u32>::empty(),
    decreases v,
{
    if v.id != id {
        lemma_no_match_no_events_seq(v.children, id);
    }
}

proof fn lemma_no_match_no_events_seq(c: Seq<NodeView>, id: u32)
    requires
        match_count_seq(c, id) == 0,
    ensures
        toggle_events_seq(c, id) == Seq::<u32>::empty(),
    decreases c,
{
    if c.len() > 0 {
        lemma_no_match_no_events_seq(c.drop_last(), id);
        lemma_no_match_no_events(c.last(), id);
        assert(toggle_events_seq(c, id) =~= Seq::<u32>::empty());
    }
}

/// LAW: a native toggle callback reaching a node whose reentrancy guard is
/// held is ignored: the tree is left exactly as it was and no event is
/// dispatched.  This is what prevents a synchronization in flight from
/// echoing back into itself.
pub proof fn lemma_toggle_ignored_while_syncing(v: NodeView, id: u32, value: bool)
    requires
        v.holds_at(id, syncing_p()),
    ensures
        vupdate(v, id, toggle_f(value)) == v,
        toggle_events(v, id) == Seq::<u32>::empty(),
    decreases v,
{
    if v.id == id {
        assert((syncing_p())(v));
    } else {
        assert forall|i: int| 0 <= i < v.children.len() implies vupdate(
            #[trigger] v.children[i],
            id,
            toggle_f(value),
        ) == v.children[i] && toggle_events(v.children[i], id) == Seq::<u32>::empty() by {
            assert(v.children[i].holds_at(id, syncing_p()));
            lemma_toggle_ignored_while_syncing(v.children[i], id, value);
        }
        assert(vupdate(v, id, toggle_f(value)).children =~= v.children);
        assert(vupdate(v, id, toggle_f(value)) =~= v);
        lemma_toggle_events_all_empty(v.children, id);
    }
}

proof fn lemma_toggle_events_all_empty(c: Seq<NodeView>, id: u32)
    requires
        forall|i: int|
            0 <= i < c.len() ==> toggle_events(#[trigger] c[i], id) == Seq::<u32>::empty(),
    ensures
        toggle_events_seq(c, id) == Seq::<u32>::empty(),
    decreases c,
{
    if c.len() > 0 {
        lemma_toggle_events_all_empty(c.drop_last(), id);
        assert(toggle_events_seq(c, id) =~= Seq::<u32>::empty());
    }
}

/// LAW: a native toggle callback reaching exactly one node carrying `id`,
/// whose guard is idle, dispatches exactly one event bearing that
/// identifier; `lemma_toggle_propagates` below adds that the toggled value
/// reaches the canonical state and every native projection.
pub proof fn lemma_toggle_dispatches_once(v: NodeView, id: u32)
    requires
        match_count(v, id) == 1,
        v.holds_at(id, idle_p()),
    ensures
        toggle_events(v, id) == seq![id],
    decreases v,
{
    if v.id == id {
        assert((idle_p())(v));
    } else {
        lemma_toggle_dispatches_once_seq(v.children, id);
    }
}

proof fn lemma_toggle_dispatches_once_seq(c: Seq<NodeView>, id: u32)
    requires
        match_count_seq(c, id) == 1,
        forall|i: int| 0 <= i < c.len() ==> (#[trigger] c[i]).holds_at(id, idle_p()),
    ensures
        toggle_events_seq(c, id) == seq![id],
    decreases c,
{
    if c.len() > 0 {
        if match_count(c.last(), id) == 0 {
            lemma_no_match_no_events(c.last(), id);
            assert forall|i: int| 0 <= i < c.drop_last().len() implies (
            #[trigger] c.drop_last()[i]).holds_at(id, idle_p()) by {
                assert(c.drop_last()[i] == c[i]);
            }
            lemma_toggle_dispatches_once_seq(c.drop_last(), id);
            assert(toggle_events_seq(c, id) =~= seq![id]);
        } else {
            assert(match_count_seq(c.drop_last(), id) == 0);
            lemma_no_match_no_events_seq(c.drop_last(), id);
            assert(c.last().holds_at(id, idle_p()));
            lemma_toggle_dispatches_once(c.last(), id);
            assert(toggle_events_seq(c, id) =~= seq![id]);
        }
    }
}

/// LAW (propagation half of the idle toggle): after a toggle reaching idle
/// nodes, every node carrying `id` shows the toggled value canonically and
/// in every native projection, on every surface.
pub proof fn lemma_toggle_propagates(v: NodeView, id: u32, value: bool)
    requires
        v.holds_at(id, idle_p()),
    ensures
        vupdate(v, id, toggle_f(value)).holds_at(id, checked_shown_p(value)),
{
    assert forall|n: NodeView| (idle_p())(n) implies #[trigger] (checked_shown_p(value))(
        (toggle_f(value))(n),
    ) by {
        let m = (toggle_f(value))(n);
        assert forall|j: int| 0 <= j < m.bindings.len() implies (#[trigger] m.bindings[j]).checked
            == value by {
            assert(m.bindings[j] == (BView { checked: value, ..n.bindings[j] }));
        }
    }
    lemma_vupdate_holds(v, id, toggle_f(value), idle_p(), checked_shown_p(value));
}

/// LAW: removing a composite tears its whole subtree down.  The node a
/// removal hands back (the removed child, stripped) holds no native
/// binding anywhere — zero handles remain on any surface — and, as long as
/// the direct children carried distinct identifiers (as the
/// identifier-discipline lemmas below maintain), the removed identifier is gone from the
/// canonical child list.
pub proof fn lemma_removal_leaves_nothing(m: MenuView, id: u32)
    requires
        has_child(m.children, id),
        distinct_child_ids(m.children),
    ensures
        m.children[child_index(m.children, id)].strip().no_bindings(),
        !has_child(m.children.remove(child_index(m.children, id)), id),
{
    lemma_child_index(m.children, id);
    let ci = child_index(m.children, id);
    lemma_strip(m.children[ci]);
    let rest = m.children.remove(ci);
    assert(!has_child(rest, id)) by {
        if has_child(rest, id) {
            let j = choose|j: int| 0 <= j < rest.len() && (#[trigger] rest[j]).id == id;
            let k: int = if j < ci {
                j
            } else {
                j + 1
            };
            assert(rest[j] == m.children[k]);
            assert(m.children[k].id == id);
            assert(m.children[ci].id == id);
            assert(k != ci);
        }
    }
}

/// A binding list without surface `s` is unchanged by tearing `s` down.
proof fn lemma_filter_bindings_absent(bs: Seq<BView>, s: u32)
    requires
        forall|j: int| 0 <= j < bs.len() ==> (#[trigger] bs[j]).surface != s,
    ensures
        bs.filter(keeps_surface(s)) == bs,
    decreases bs.len(),
{
    reveal(Seq::filter);
    if bs.len() > 0 {
        lemma_filter_bindings_absent(bs.drop_last(), s);
        assert(bs.filter(keeps_surface(s)) =~= bs);
    } else {
        assert(bs.filter(keeps_surface(s)) =~= bs);
    }
}

/// Every node of the subtree caches exactly the parse of its accelerator,
/// as any materialization leaves it.
pub open spec fn cache_warm(n: NodeView) -> bool
    decreases n,
{
    &&& n.parsed == popt(n.accelerator)
    &&& forall|i: int| 0 <= i < n.children.len() ==> cache_warm(#[trigger] n.children[i])
}

/// LAW: attaching a surface and detaching it again returns every node of
/// the tree to exactly its previous state, down to each binding, provided
/// the surface was not already shown (which `attach` enforces) and the
/// accelerator caches are warm (as any earlier materialization leaves
/// them).
pub proof fn lemma_attach_detach_round_trip(n: NodeView, s: u32, keys: Seq<u32>)
    requires
        n.keys_ok(keys),
        !keys.contains(s),
        cache_warm(n),
    ensures
        unmat(mat_add(n, s), s) == n,
    decreases n,
{
    let m = mat_add(n, s);
    assert forall|j: int| 0 <= j < n.bindings.len() implies (#[trigger] n.bindings[j]).surface
        != s by {
        assert(n.binding_surfaces()[j] == n.bindings[j].surface);
        assert(keys[j] == n.bindings[j].surface);
    }
    lemma_filter_bindings_absent(n.bindings, s);
    assert(m.bindings.drop_last() =~= n.bindings);
    assert(m.bindings.filter(keeps_surface(s)) == n.bindings) by {
        reveal(Seq::filter);
        assert(!(keeps_surface(s))(m.bindings.last()));
    }
    assert forall|i: int| 0 <= i < n.children.len() implies unmat(
        mat_add(#[trigger] n.children[i], s),
        s,
    ) == n.children[i] by {
        assert(n.children[i].keys_ok(keys));
        lemma_attach_detach_round_trip(n.children[i], s, keys);
    }
    assert(unmat(m, s).children =~= n.children);
    assert(unmat(m, s) =~= n);
}

/// LAW: setting an accelerator and then clearing it leaves no registration
/// for the node in any attached surface's accelerator table, and no cached
/// platform accelerator on the node.
pub proof fn lemma_accelerator_round_trip(v: NodeView, id: u32, a: crate::accelerator::Accelerator)
    ensures
        vupdate(
            vupdate(v, id, set_accel_f(Some(a))),
            id,
            set_accel_f(None),
        ).holds_at(id, no_accel_p()),
{
    let w = vupdate(v, id, set_accel_f(Some(a)));
    lemma_holds_at_true(w, id);
    assert forall|n: NodeView| (true_p())(n) implies #[trigger] (no_accel_p())(
        (set_accel_f(None))(n),
    ) by {
        let m = (set_accel_f(None))(n);
        assert forall|j: int| 0 <= j < m.bindings.len() implies (#[trigger] m.bindings[j]).accel
            is None by {
            assert(m.bindings[j] == (BView { accel: Option::None, ..n.bindings[j] }));
        }
    }
    lemma_vupdate_holds(w, id, set_accel_f(None), true_p(), no_accel_p());
}

// ---------------------------------------------------------------------
// Identifier discipline.
//
// Identifiers are handed out once by a `Counter` and never reused, so the
// nodes of a menu built through the public constructors carry pairwise
// distinct identifiers.  The lemmas below carry that invariant through the
// engine: no operation invents, loses or duplicates an identifier — a
// structural insertion adds exactly the inserted subtree's identifiers,
// and everything else leaves the identifier sequence untouched.
/// Every identifier of a subtree, in depth-first order.
pub open spec fn tree_ids(n: NodeView) -> Seq<u32>
    decreases n,
{
    seq![n.id] + tree_ids_seq(n.children)
}

/// `tree_ids` across a child list.
pub open spec fn tree_ids_seq(s: Seq<NodeView>) -> Seq<u32>
    decreases s,
{
    if s.len() == 0 {
        Seq::empty()
    } else {
        tree_ids_seq(s.drop_last()) + tree_ids(s.last())
    }
}

/// Child lists whose elements carry the same identifier trees carry the
/// same identifiers.
proof fn lemma_tree_ids_seq_pointwise(a: Seq<NodeView>, b: Seq<NodeView>)
    requires
        a.len() == b.len(),
        forall|i: int| 0 <= i < a.len() ==> tree_ids(#[trigger] a[i]) == tree_ids(b[i]),
    ensures
        tree_ids_seq(a) == tree_ids_seq(b),
    decreases a.len(),
{
    if a.len() > 0 {
        assert forall|i: int| 0 <= i < a.drop_last().len() implies tree_ids(
            #[trigger] a.drop_last()[i],
        ) == tree_ids(b.drop_last()[i]) by {
            assert(a.drop_last()[i] == a[i]);
            assert(b.drop_last()[i] == b[i]);
        }
        lemma_tree_ids_seq_pointwise(a.drop_last(), b.drop_last());
        assert(tree_ids(a.last()) == tree_ids(b.last()));
    }
}

/// `tree_ids_seq` distributes over concatenation.
proof fn lemma_tree_ids_seq_concat(a: Seq<NodeView>, b: Seq<NodeView>)
    ensures
        tree_ids_seq(a + b) == tree_ids_seq(a) + tree_ids_seq(b),
    decreases b.len(),
{
    if b.len() == 0 {
        assert(a + b =~= a);
        assert(tree_ids_seq(a) + tree_ids_seq(b) =~= tree_ids_seq(a));
    } else {
        lemma_tree_ids_seq_concat(a, b.drop_last());
        assert((a + b).drop_last() =~= a + b.drop_last());
        assert((a + b).last() == b.last());
        assert(tree_ids_seq(a) + tree_ids_seq(b.drop_last()) + tree_ids(b.last()) =~= tree_ids_seq(
            a,
        ) + tree_ids_seq(b));
    }
}

/// LAW: a by-identifier update whose transformer touches neither a node's
/// identifier nor its children leaves the identifier sequence untouched;
/// every state-sync operation is of this shape.
pub proof fn lemma_update_keeps_ids(v: NodeView, id: u32, f: spec_fn(NodeView) -> NodeView)
    requires
        forall|n: NodeView| (#[trigger] f(n)).id == n.id,
        forall|n: NodeView| (#[trigger] f(n)).children == n.children,
    ensures
        tree_ids(vupdate(v, id, f)) == tree_ids(v),
    decreases v,
{
    let m = vupdate(v, id, f);
    if v.id == id {
        assert(tree_ids(m) =~= tree_ids(v));
    } else {
        assert forall|i: int| 0 <= i < v.children.len() implies tree_ids(
            #[trigger] m.children[i],
        ) == tree_ids(v.children[i]) by {
            assert(m.children[i] == vupdate(v.children[i], id, f));
            lemma_update_keeps_ids(v.children[i], id, f);
        }
        lemma_tree_ids_seq_pointwise(m.children, v.children);
    }
}

/// The menu-level identifier invariant: every node of the tree carries a
/// distinct identifier.  Menus built through the public constructors have
/// it, since every identifier is drawn from one counter; the lemmas of
/// this section carry it through every operation.
pub open spec fn menu_ids_unique(m: MenuView) -> bool {
    tree_ids_seq(m.children).no_duplicates()
}

/// `lemma_update_keeps_ids`, across a whole child list: the by-identifier
/// state-sync operations leave a menu's identifier sequence untouched.
pub proof fn lemma_update_seq_keeps_ids(s: Seq<NodeView>, id: u32, f: spec_fn(NodeView) -> NodeView)
    requires
        forall|n: NodeView| (#[trigger] f(n)).id == n.id,
        forall|n: NodeView| (#[trigger] f(n)).children == n.children,
    ensures
        tree_ids_seq(vupdate_seq(s, id, f)) == tree_ids_seq(s),
{
    assert forall|i: int| 0 <= i < s.len() implies tree_ids(#[trigger] vupdate_seq(s, id, f)[i])
        == tree_ids(s[i]) by {
        assert(vupdate_seq(s, id, f)[i] == vupdate(s[i], id, f));
        lemma_update_keeps_ids(s[i], id, f);
    }
    lemma_tree_ids_seq_pointwise(vupdate_seq(s, id, f), s);
}

/// LAW: attaching, detaching and tearing down surfaces leave the
/// identifier sequence untouched.
pub proof fn lemma_surfaces_keep_ids(n: NodeView, s: u32, keys: Seq<u32>)
    ensures
        tree_ids(mat_add(n, s)) == tree_ids(n),
        tree_ids(unmat(n, s)) == tree_ids(n),
        tree_ids(mat_fresh(n, keys)) == tree_ids(n),
        tree_ids(n.strip()) == tree_ids(n),
    decreases n,
{
    assert forall|i: int| 0 <= i < n.children.len() implies tree_ids(
        mat_add(#[trigger] n.children[i], s),
    ) == tree_ids(n.children[i]) && tree_ids(unmat(n.children[i], s)) == tree_ids(n.children[i])
        && tree_ids(mat_fresh(n.children[i], keys)) == tree_ids(n.children[i]) && tree_ids(
        n.children[i].strip(),
    ) == tree_ids(n.children[i]) by {
        lemma_surfaces_keep_ids(n.children[i], s, keys);
    }
    lemma_tree_ids_seq_pointwise(mat_add(n, s).children, n.children);
    lemma_tree_ids_seq_pointwise(unmat(n, s).children, n.children);
    lemma_tree_ids_seq_pointwise(mat_fresh(n, keys).children, n.children);
    lemma_tree_ids_seq_pointwise(n.strip().children, n.children);
}

/// LAW: a structural insertion adds exactly the inserted subtree's
/// identifiers; distinctness is preserved whenever they are fresh, as
/// identifiers drawn from the counter after the tree was built always are.
pub proof fn lemma_insert_keeps_unique(
    children: Seq<NodeView>,
    pos: int,
    item: NodeView,
    keys: Seq<u32>,
)
    requires
        0 <= pos <= children.len(),
        tree_ids_seq(children).no_duplicates(),
        tree_ids(item).no_duplicates(),
        forall|k: int|
            0 <= k < tree_ids(item).len() ==> !tree_ids_seq(children).contains(
                #[trigger] tree_ids(item)[k],
            ),
    ensures
        tree_ids_seq(children.insert(pos, mat_fresh(item, keys))).no_duplicates(),
{
    let a = children.subrange(0, pos);
    let b = children.subrange(pos, children.len() as int);
    let it = mat_fresh(item, keys);
    lemma_surfaces_keep_ids(item, 0, keys);
    assert(children.insert(pos, it) =~= a + seq![it] + b);
    lemma_tree_ids_seq_concat(a + seq![it], b);
    lemma_tree_ids_seq_concat(a, seq![it]);
    assert(tree_ids_seq(seq![it]) =~= tree_ids(it)) by {
        assert(seq![it].len() == 1);
        assert(seq![it].drop_last() =~= Seq::<NodeView>::empty());
        assert(tree_ids_seq(seq![it].drop_last()) == Seq::<u32>::empty());
        assert(seq![it].last() == it);
        assert(tree_ids_seq(seq![it]) == Seq::<u32>::empty() + tree_ids(it));
    }
    assert(a + b =~= children);
    lemma_tree_ids_seq_concat(a, b);
    let ta = tree_ids_seq(a);
    let tb = tree_ids_seq(b);
    let ti = tree_ids(it);
    assert(tree_ids_seq(children) == ta + tb);
    assert(tree_ids_seq(children.insert(pos, it)) == ta + ti + tb);
    assert forall|p: int, q: int|
        0 <= p < q < (ta + ti + tb).len() implies (ta + ti + tb)[p] != (ta + ti + tb)[q] by {
        let whole = ta + ti + tb;
        let old_of = |x: int| -> int
            {
                if x < ta.len() {
                    x
                } else {
                    x - ti.len()
                }
            };
        if p < ta.len() || p >= ta.len() + ti.len() {
            if q < ta.len() || q >= ta.len() + ti.len() {
                // both outside the inserted block: they sit in the old
                // sequence, which is duplicate-free
                assert(whole[p] == tree_ids_seq(children)[old_of(p)]);
                assert(whole[q] == tree_ids_seq(children)[old_of(q)]);
            } else {
                // q inside the block, p outside: freshness separates them
                assert(whole[q] == ti[q - ta.len()]);
                assert(whole[p] == tree_ids_seq(children)[old_of(p)]);
                if whole[p] == whole[q] {
                    assert(tree_ids_seq(children).contains(ti[q - ta.len()]));
                }
            }
        } else {
            if q < ta.len() + ti.len() {
                // both inside the block, which is duplicate-free
                assert(whole[p] == ti[p - ta.len()]);
                assert(whole[q] == ti[q - ta.len()]);
            } else {
                // p inside the block, q outside: freshness separates them
                assert(whole[p] == ti[p - ta.len()]);
                assert(whole[q] == tree_ids_seq(children)[old_of(q)]);
                if whole[p] == whole[q] {
                    assert(tree_ids_seq(children).contains(ti[p - ta.len()]));
                }
            }
        }
    }
}

/// LAW: a removal only drops identifiers; distinctness is preserved.
pub proof fn lemma_remove_keeps_unique(children: Seq<NodeView>, pos: int)
    requires
        0 <= pos < children.len(),
        tree_ids_seq(children).no_duplicates(),
    ensures
        tree_ids_seq(children.remove(pos)).no_duplicates(),
{
    let a = children.subrange(0, pos);
    let x = children.subrange(pos, pos + 1);
    let b = children.subrange(pos + 1, children.len() as int);
    assert(children =~= a + x + b);
    assert(children.remove(pos) =~= a + b);
    lemma_tree_ids_seq_concat(a + x, b);
    lemma_tree_ids_seq_concat(a, x);
    lemma_tree_ids_seq_concat(a, b);
    let ta = tree_ids_seq(a);
    let tx = tree_ids_seq(x);
    let tb = tree_ids_seq(b);
    assert(tree_ids_seq(children) == ta + tx + tb);
    assert(tree_ids_seq(children.remove(pos)) == ta + tb);
    assert forall|p: int, q: int| 0 <= p < q < (ta + tb).len() implies (ta + tb)[p] != (ta
        + tb)[q] by {
        let kp: int = if p < ta.len() {
            p
        } else {
            p + tx.len()
        };
        let kq: int = if q < ta.len() {
            q
        } else {
            q + tx.len()
        };
        assert((ta + tb)[p] == (ta + tx + tb)[kp]);
        assert((ta + tb)[q] == (ta + tx + tb)[kq]);
    }
}

} // verus!
