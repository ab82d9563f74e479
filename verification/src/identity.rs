//! The identities of the panels of a tree.
//!
//! Every panel has an identity. The changes to the layout neither lose nor
//! copy a panel: this module counts how often an identity occurs in a tree
//! and says what each change does to that count.

use crate::codec::{
    decoded, instantiated, instantiated_children, made_panels, PersistedNodeView,
};
use crate::panel::{
    lemma_panel_position, made_panel, panel_position, Axis, PanelView, TemplateView,
};
use crate::tree::{
    activate_outcome, close_outcome, find_in_children, find_panel, kept_children,
    lemma_find_panel, lemma_groups_stay_in_place, lemma_simplified_some, lemma_simplified_wf,
    lemma_subtree_of_with_subtree, move_outcome,
    ratio_pair, resize_outcome, simplified, split_outcome, step_outcome, subtree, with_panel,
    with_subtree, without_panel, LayoutError, NodeView, StepView,
};
use crate::weights::normalized;
use vstd::prelude::*;

verus! {

/// How many of the first `n` of `panels` have the identity `id`.
pub open spec fn count_in(panels: Seq<PanelView>, id: u64, n: nat) -> nat
    decreases n,
{
    if n == 0 || n > panels.len() {
        0
    } else {
        count_in(panels, id, (n - 1) as nat) + if panels[n - 1].id == id {
            1nat
        } else {
            0nat
        }
    }
}

/// How many panels of the tree have the identity `id`.
pub open spec fn occurrences(t: NodeView, id: u64) -> nat
    decreases t, 0nat,
{
    match t {
        NodeView::Split { children, .. } => occurrences_in(children, id, children.len()),
        NodeView::Tabs { panels, .. } => count_in(panels, id, panels.len()),
    }
}

/// How many panels of the first `n` of `children` have the identity `id`.
pub open spec fn occurrences_in(children: Seq<NodeView>, id: u64, n: nat) -> nat
    decreases children, n,
{
    if n == 0 || n > children.len() {
        0
    } else {
        occurrences_in(children, id, (n - 1) as nat) + occurrences(children[n - 1], id)
    }
}

/// Whether no two panels of the tree have the same identity.
pub open spec fn distinct_ids(t: NodeView) -> bool {
    forall|id: u64| #[trigger] occurrences(t, id) <= 1
}

/// The count over a prefix depends on that prefix alone.
pub proof fn lemma_count_in_prefix(a: Seq<PanelView>, b: Seq<PanelView>, id: u64, n: nat)
    requires
        n <= a.len(),
        n <= b.len(),
        forall|k: int| 0 <= k < n ==> a[k] == b[k],
    ensures
        count_in(a, id, n) == count_in(b, id, n),
    decreases n,
{
    if n > 0 {
        lemma_count_in_prefix(a, b, id, (n - 1) as nat);
    }
}

/// A panel that is added counts once, for its own identity.
pub proof fn lemma_count_in_push(panels: Seq<PanelView>, panel: PanelView, id: u64)
    ensures
        count_in(panels.push(panel), id, panels.len() + 1) == count_in(panels, id, panels.len())
            + if panel.id == id {
            1nat
        } else {
            0nat
        },
{
    lemma_count_in_prefix(panels.push(panel), panels, id, panels.len());
}

/// A panel that is taken out counts once less, for its own identity.
pub proof fn lemma_count_in_remove(panels: Seq<PanelView>, i: int, id: u64, n: nat)
    requires
        0 <= i < n <= panels.len(),
    ensures
        count_in(panels.remove(i), id, (n - 1) as nat) + (if panels[i].id == id {
            1nat
        } else {
            0nat
        }) == count_in(panels, id, n),
    decreases n,
{
    if n == i + 1 {
        lemma_count_in_prefix(panels.remove(i), panels, id, i as nat);
    } else {
        lemma_count_in_remove(panels, i, id, (n - 1) as nat);
    }
}

/// No panel counts where none has the identity, and the other way round.
pub proof fn lemma_count_in_zero(panels: Seq<PanelView>, id: u64, n: nat)
    requires
        n <= panels.len(),
    ensures
        count_in(panels, id, n) == 0 <==> (forall|k: int| 0 <= k < n ==> panels[k].id != id),
    decreases n,
{
    if n > 0 {
        lemma_count_in_zero(panels, id, (n - 1) as nat);
    }
}

/// The count over the first children depends on those children alone.
pub proof fn lemma_occurrences_in_prefix(a: Seq<NodeView>, b: Seq<NodeView>, id: u64, n: nat)
    requires
        n <= a.len(),
        n <= b.len(),
        forall|k: int| 0 <= k < n ==> a[k] == b[k],
    ensures
        occurrences_in(a, id, n) == occurrences_in(b, id, n),
    decreases n,
{
    if n > 0 {
        lemma_occurrences_in_prefix(a, b, id, (n - 1) as nat);
    }
}

/// Replacing one child changes the count by what the two children differ in.
pub proof fn lemma_occurrences_in_update(
    children: Seq<NodeView>,
    i: int,
    child: NodeView,
    id: u64,
    n: nat,
)
    requires
        0 <= i < n <= children.len(),
    ensures
        occurrences_in(children.update(i, child), id, n) + occurrences(children[i], id)
            == occurrences_in(children, id, n) + occurrences(child, id),
    decreases n,
{
    if n == i + 1 {
        lemma_occurrences_in_prefix(children.update(i, child), children, id, i as nat);
    } else {
        lemma_occurrences_in_update(children, i, child, id, (n - 1) as nat);
    }
}

/// Replacing a node changes the count by what the two nodes differ in.
pub proof fn lemma_occurrences_with_subtree(
    t: NodeView,
    path: Seq<usize>,
    sub: NodeView,
    id: u64,
)
    requires
        subtree(t, path) is Some,
    ensures
        occurrences(with_subtree(t, path, sub), id) + occurrences(subtree(t, path).unwrap(), id)
            == occurrences(t, id) + occurrences(sub, id),
    decreases path.len(),
{
    if path.len() > 0 {
        match t {
            NodeView::Split { children, .. } => {
                let i = path[0] as int;
                let child = with_subtree(children[i], path.skip(1), sub);
                lemma_occurrences_with_subtree(children[i], path.skip(1), sub, id);
                lemma_occurrences_in_update(children, i, child, id, children.len());
            },
            NodeView::Tabs { .. } => {},
        }
    }
}

/// Bringing a tree to its simplest form neither loses nor copies a panel.
pub proof fn lemma_occurrences_simplified(t: NodeView, id: u64)
    ensures
        match simplified(t) {
            Some(r) => occurrences(r, id) == occurrences(t, id),
            None => occurrences(t, id) == 0,
        },
    decreases t, 0nat,
{
    match t {
        NodeView::Tabs { panels, .. } => {},
        NodeView::Split { children, weights, .. } => {
            lemma_occurrences_kept(children, weights, children.len(), id);
            let kept = kept_children(children, weights, children.len());
            if kept.0.len() == 1 {
                assert(occurrences_in(kept.0, id, 0) == 0);
            }
        },
    }
}

/// The children that are kept hold the panels of all children.
pub proof fn lemma_occurrences_kept(children: Seq<NodeView>, weights: Seq<u32>, n: nat, id: u64)
    ensures
        occurrences_in(
            kept_children(children, weights, n).0,
            id,
            kept_children(children, weights, n).0.len(),
        ) == occurrences_in(children, id, n),
    decreases children, n,
{
    if n == 0 || n > children.len() {
    } else {
        lemma_occurrences_kept(children, weights, (n - 1) as nat, id);
        lemma_occurrences_simplified(children[n - 1], id);
        let rest = kept_children(children, weights, (n - 1) as nat);
        match simplified(children[n - 1]) {
            Some(c) => {
                lemma_occurrences_in_prefix(rest.0.push(c), rest.0, id, rest.0.len());
            },
            None => {},
        }
    }
}

/// A panel is found in a tree in memory if and only if the tree holds it.
pub proof fn lemma_found_iff_held(t: NodeView, id: u64)
    requires
        t.addressable(),
    ensures
        find_panel(t, id) is Some <==> occurrences(t, id) > 0,
    decreases t, 0nat,
{
    match t {
        NodeView::Tabs { panels, .. } => {
            lemma_panel_position(panels, id, 0);
            lemma_count_in_zero(panels, id, panels.len());
        },
        NodeView::Split { children, .. } => {
            lemma_found_iff_held_in(children, id, children.len());
        },
    }
}

/// The same, for the first `n` children of a split.
pub proof fn lemma_found_iff_held_in(children: Seq<NodeView>, id: u64, n: nat)
    requires
        children.len() <= usize::MAX,
        forall|i: int| 0 <= i < children.len() ==> (#[trigger] children[i]).addressable(),
    ensures
        find_in_children(children, id, n) is Some <==> occurrences_in(children, id, n) > 0,
    decreases children, n,
{
    if n == 0 || n > children.len() {
    } else {
        lemma_found_iff_held_in(children, id, (n - 1) as nat);
        lemma_found_iff_held(children[n - 1], id);
    }
}

/// A split adds the new panel and nothing else: the tree that it gives
/// holds every panel as often as before, and the new panel once more.
pub proof fn lemma_split_adds_one(
    t: NodeView,
    target: Seq<usize>,
    axis: Axis,
    panel: PanelView,
    ratio: Option<(u32, u32)>,
    id: u64,
)
    ensures
        split_outcome(t, target, axis, panel, ratio) matches Ok(r) ==> occurrences(r, id)
            == occurrences(t, id) + if panel.id == id {
            1nat
        } else {
            0nat
        },
{
    if let Some(existing) = subtree(t, target) {
        let group = NodeView::Tabs { panels: seq![panel], active: 0 };
        let children = seq![existing, group];
        let sub = NodeView::Split {
            axis,
            children,
            weights: normalized(ratio_pair(ratio)),
        };
        let one: nat = if panel.id == id {
            1
        } else {
            0
        };
        assert(count_in(seq![panel], id, 0) == 0);
        assert(count_in(seq![panel], id, 1) == one);
        assert(occurrences(group, id) == one);
        assert(occurrences_in(children, id, 0) == 0);
        assert(occurrences_in(children, id, 1) == occurrences(existing, id));
        assert(occurrences_in(children, id, 2) == occurrences(existing, id) + one);
        assert(occurrences(sub, id) == occurrences(existing, id) + one);
        lemma_occurrences_with_subtree(t, target, sub, id);
    }
}

/// A resize neither loses nor copies a panel.
pub proof fn lemma_resize_keeps_panels(t: NodeView, position: Seq<usize>, ratios: Seq<u32>, id: u64)
    ensures
        resize_outcome(t, position, ratios) matches Ok(r) ==> occurrences(r, id) == occurrences(
            t,
            id,
        ),
{
    match subtree(t, position) {
        Some(NodeView::Split { axis, children, weights }) => {
            let sub = NodeView::Split { axis, children, weights: normalized(ratios) };
            lemma_occurrences_with_subtree(t, position, sub, id);
        },
        _ => {},
    }
}

/// A move neither loses nor copies a panel: the tree that it gives holds
/// every panel as often as the tree before.
pub proof fn lemma_move_keeps_panels(
    t: NodeView,
    panel_id: u64,
    from: Seq<usize>,
    to: Seq<usize>,
    id: u64,
)
    ensures
        move_outcome(t, panel_id, from, to) matches Ok(r) ==> occurrences(r, id) == occurrences(
            t,
            id,
        ),
{
    if let Some(NodeView::Tabs { panels, active }) = subtree(t, from) {
        if let Some(i) = panel_position(panels, panel_id, 0) {
            lemma_panel_position(panels, panel_id, 0);
            let taken = with_subtree(t, from, without_panel(panels, active, i));
            lemma_occurrences_with_subtree(t, from, without_panel(panels, active, i), id);
            lemma_count_in_remove(panels, i, id, panels.len());
            lemma_groups_stay_in_place(t, from, without_panel(panels, active, i), to);
            if let Some(NodeView::Tabs { panels: others, active: _ }) = subtree(taken, to) {
                let grown = with_panel(others, panels[i]);
                let moved = with_subtree(taken, to, grown);
                lemma_occurrences_with_subtree(taken, to, grown, id);
                lemma_count_in_push(others, panels[i], id);
                lemma_subtree_of_with_subtree(taken, to, grown);
                lemma_simplified_some(moved, to);
                lemma_occurrences_simplified(moved, id);
            }
        }
    }
}

/// Closing a panel takes out that panel and nothing else: the tree that it
/// gives holds the panel once less, and every other panel as often as before.
pub proof fn lemma_close_takes_one(t: NodeView, panel_id: u64, id: u64)
    ensures
        close_outcome(t, panel_id) matches Ok(r) ==> occurrences(r, id) + (if panel_id == id {
            1nat
        } else {
            0nat
        }) == occurrences(t, id),
{
    if let Some((path, i)) = find_panel(t, panel_id) {
        lemma_find_panel(t, panel_id);
        let group = subtree(t, path).unwrap();
        let rest = without_panel(group->panels, group->active, i);
        lemma_occurrences_with_subtree(t, path, rest, id);
        lemma_count_in_remove(group->panels, i, id, group->panels.len());
        lemma_occurrences_simplified(with_subtree(t, path, rest), id);
    }
}

/// Whether the panel `id` is the only panel of the tree.
pub open spec fn holds_only(t: NodeView, id: u64) -> bool {
    forall|x: u64| #[trigger]
        occurrences(t, x) == if x == id {
            1nat
        } else {
            0nat
        }
}

/// The first children hold at least the panels of each of them.
pub proof fn lemma_occurrences_in_at_least(children: Seq<NodeView>, id: u64, n: nat, k: int)
    requires
        0 <= k < n <= children.len(),
    ensures
        occurrences_in(children, id, n) >= occurrences(children[k], id),
    decreases n,
{
    if k < n - 1 {
        lemma_occurrences_in_at_least(children, id, (n - 1) as nat, k);
    }
}

/// A tree that meets the invariant holds a panel.
pub proof fn lemma_valid_tree_holds_panel(t: NodeView)
    requires
        t.wf(),
    ensures
        exists|id: u64| occurrences(t, id) > 0,
    decreases t,
{
    match t {
        NodeView::Tabs { panels, .. } => {
            let id = panels[0].id;
            lemma_count_in_zero(panels, id, panels.len());
            assert(occurrences(t, id) > 0);
        },
        NodeView::Split { children, .. } => {
            lemma_valid_tree_holds_panel(children[0]);
            let id = choose|id: u64| occurrences(children[0], id) > 0;
            lemma_occurrences_in_at_least(children, id, children.len(), 0);
            assert(occurrences(t, id) > 0);
        },
    }
}

/// Closing a panel is refused as not closable in two cases and no others:
/// the panel may not be closed, or it is the only panel of the tree.
pub proof fn lemma_only_the_last_panel_stays(t: NodeView, panel_id: u64)
    ensures
        close_outcome(t, panel_id) == Err::<NodeView, LayoutError>(LayoutError::NotClosable)
            <==> (find_panel(t, panel_id) matches Some((path, i)) && (!subtree(
            t,
            path,
        ).unwrap()->panels[i].closable || holds_only(t, panel_id))),
{
    if let Some((path, i)) = find_panel(t, panel_id) {
        lemma_find_panel(t, panel_id);
        let group = subtree(t, path).unwrap();
        let panels = group->panels;
        let rest = without_panel(panels, group->active, i);
        let removed = with_subtree(t, path, rest);
        if panels[i].closable {
            assert forall|x: u64|
                occurrences(removed, x) + (if x == panel_id {
                    1nat
                } else {
                    0nat
                }) == #[trigger] occurrences(t, x) by {
                lemma_occurrences_with_subtree(t, path, rest, x);
                lemma_count_in_remove(panels, i, x, panels.len());
            }
            match simplified(removed) {
                Some(r) => {
                    lemma_simplified_wf(removed);
                    lemma_valid_tree_holds_panel(r);
                    let y = choose|y: u64| occurrences(r, y) > 0;
                    lemma_occurrences_simplified(removed, y);
                    assert(occurrences(t, y) > (if y == panel_id {
                        1nat
                    } else {
                        0nat
                    }));
                    assert(!holds_only(t, panel_id));
                },
                None => {
                    assert forall|x: u64| #[trigger]
                        occurrences(t, x) == if x == panel_id {
                            1nat
                        } else {
                            0nat
                        } by {
                        lemma_occurrences_simplified(removed, x);
                    }
                },
            }
        }
    }
}

/// Making a panel active neither loses nor copies a panel.
pub proof fn lemma_activate_keeps_panels(t: NodeView, panel_id: u64, id: u64)
    ensures
        activate_outcome(t, panel_id) matches Ok(r) ==> occurrences(r, id)
            == occurrences(t, id),
{
    if let Some((path, i)) = find_panel(t, panel_id) {
        lemma_find_panel(t, panel_id);
        let group = subtree(t, path).unwrap();
        let chosen = NodeView::Tabs { panels: group->panels, active: i as nat };
        lemma_occurrences_with_subtree(t, path, chosen, id);
    }
}

/// Where no two panels of a tree have the same identity, the same holds
/// after every change: after a move, a resize, closing a panel or making one
/// active, and after a split with a panel whose identity the tree does not
/// hold yet.
pub proof fn lemma_changes_keep_identities_distinct(
    t: NodeView,
    step: StepView,
)
    requires
        distinct_ids(t),
        step matches StepView::Split { panel, .. } ==> occurrences(t, panel.id) == 0,
    ensures
        step_outcome(t, step) matches Ok(r) ==> distinct_ids(r),
{
    if let Ok(r) = step_outcome(t, step) {
        assert forall|id: u64| #[trigger] occurrences(r, id) <= 1 by {
            assert(occurrences(t, id) <= 1);
            match step {
                StepView::Split { target, axis, panel, ratio } => {
                    lemma_split_adds_one(t, target, axis, panel, ratio, id);
                },
                StepView::Resize { position, ratios } => {
                    lemma_resize_keeps_panels(t, position, ratios, id);
                },
                StepView::MovePanel { panel_id, from, to } => {
                    lemma_move_keeps_panels(t, panel_id, from, to, id);
                },
                StepView::ClosePanel { panel_id } => {
                    lemma_close_takes_one(t, panel_id, id);
                },
                StepView::Activate { panel_id } => {
                    lemma_activate_keeps_panels(t, panel_id, id);
                },
            }
        }
    }
}

/// The panels that the registry makes have identities that it has not
/// handed out before, each its own.
pub proof fn lemma_made_panels_fresh(
    templates: Seq<TemplateView>,
    names: Seq<Seq<char>>,
    issued: u64,
    n: nat,
    id: u64,
)
    ensures
        ({
            let made = made_panels(templates, names, issued, n);
            &&& issued <= made.1
            &&& count_in(made.0, id, made.0.len()) <= 1
            &&& count_in(made.0, id, made.0.len()) > 0 ==> issued <= id < made.1
        }),
    decreases n,
{
    if n == 0 || n > names.len() {
    } else {
        lemma_made_panels_fresh(templates, names, issued, (n - 1) as nat, id);
        let rest = made_panels(templates, names, issued, (n - 1) as nat);
        match made_panel(templates, rest.1, names[n - 1]) {
            Some(panel) => {
                lemma_count_in_push(rest.0, panel, id);
            },
            None => {},
        }
    }
}

/// The panels of a tree that is made from a stored layout have identities
/// that the registry has not handed out before, each its own.
pub proof fn lemma_instantiated_fresh(
    templates: Seq<TemplateView>,
    stored: PersistedNodeView,
    issued: u64,
    id: u64,
)
    ensures
        ({
            let made = instantiated(templates, stored, issued);
            &&& issued <= made.1
            &&& occurrences(made.0, id) <= 1
            &&& occurrences(made.0, id) > 0 ==> issued <= id < made.1
        }),
    decreases stored, 0nat,
{
    match stored {
        PersistedNodeView::Split { children, .. } => {
            lemma_instantiated_children_fresh(templates, children, issued, children.len(), id);
            let made = instantiated_children(templates, children, issued, children.len());
            lemma_instantiated_children_len(templates, children, issued, children.len());
        },
        PersistedNodeView::Tabs { panels, .. } => {
            lemma_made_panels_fresh(templates, panels, issued, panels.len(), id);
        },
    }
}

/// One tree is made for each stored child.
pub proof fn lemma_instantiated_children_len(
    templates: Seq<TemplateView>,
    children: Seq<PersistedNodeView>,
    issued: u64,
    n: nat,
)
    requires
        n <= children.len(),
    ensures
        instantiated_children(templates, children, issued, n).0.len() == n,
    decreases n,
{
    if n > 0 {
        lemma_instantiated_children_len(templates, children, issued, (n - 1) as nat);
    }
}

/// The same as `lemma_instantiated_fresh`, for the first `n` stored children.
pub proof fn lemma_instantiated_children_fresh(
    templates: Seq<TemplateView>,
    children: Seq<PersistedNodeView>,
    issued: u64,
    n: nat,
    id: u64,
)
    ensures
        ({
            let made = instantiated_children(templates, children, issued, n);
            &&& issued <= made.1
            &&& occurrences_in(made.0, id, made.0.len()) <= 1
            &&& occurrences_in(made.0, id, made.0.len()) > 0 ==> issued <= id < made.1
        }),
    decreases children, n,
{
    if n == 0 || n > children.len() {
    } else {
        lemma_instantiated_children_fresh(templates, children, issued, (n - 1) as nat, id);
        let rest = instantiated_children(templates, children, issued, (n - 1) as nat);
        lemma_instantiated_fresh(templates, children[n - 1], rest.1, id);
        let child = instantiated(templates, children[n - 1], rest.1);
        lemma_occurrences_in_prefix(rest.0.push(child.0), rest.0, id, rest.0.len());
    }
}

/// No two panels of a tree that is brought back from storage have the same
/// identity, and none has an identity that the registry had handed out
/// before.
pub proof fn lemma_decoded_is_distinct(
    templates: Seq<TemplateView>,
    stored: PersistedNodeView,
    issued: u64,
)
    ensures
        decoded(templates, stored, issued) matches Some(r) ==> distinct_ids(r) && forall|id: u64|
            #[trigger] occurrences(r, id) > 0 ==> issued <= id < instantiated(
                templates,
                stored,
                issued,
            ).1,
{
    if let Some(r) = decoded(templates, stored, issued) {
        assert forall|id: u64|
            #[trigger] occurrences(r, id) <= 1 && (occurrences(r, id) > 0 ==> issued <= id
                < instantiated(templates, stored, issued).1) by {
            lemma_instantiated_fresh(templates, stored, issued, id);
            lemma_occurrences_simplified(instantiated(templates, stored, issued).0, id);
        }
    }
}

} // verus!
