//! The layout tree: splits that divide space among their children, and tab
//! groups that hold panels.

use crate::identity::{lemma_found_iff_held, occurrences};
use crate::panel::{lemma_panel_position, panel_position, panel_views, Axis, Panel, PanelView};
use crate::weights::{normalize, normalized, sum_of, total, WEIGHT_TOTAL};
use crate::weights::{lemma_normalized_fixed_point, lemma_normalized_total};
use vstd::prelude::*;

verus! {

/// What a layout tree is, as a mathematical value.
pub enum NodeView {
    Split { axis: Axis, children: Seq<NodeView>, weights: Seq<u32> },
    Tabs { panels: Seq<PanelView>, active: nat },
}

/// A node of the layout tree.
///
/// A split lays out `children` along `axis`; `weights` holds the size weight
/// of each child, in the same order. A tab group shows the panel at `active`
/// and holds the others behind it.
#[derive(Debug, PartialEq, Eq)]
pub enum LayoutNode {
    Split { axis: Axis, children: Vec<LayoutNode>, weights: Vec<u32> },
    Tabs { panels: Vec<Panel>, active: usize },
}

/// The views of a sequence of nodes, in order.
pub open spec fn node_views(nodes: Seq<LayoutNode>) -> Seq<NodeView> {
    Seq::new(nodes.len(), |i: int| nodes[i]@)
}

/// The view of a node.
pub open spec fn node_view(node: LayoutNode) -> NodeView
    decreases node, 0nat,
{
    match node {
        LayoutNode::Split { axis, children, weights } => NodeView::Split {
            axis,
            children: child_views(children@, children@.len()),
            weights: weights@,
        },
        LayoutNode::Tabs { panels, active } => NodeView::Tabs {
            panels: panel_views(panels@),
            active: active as nat,
        },
    }
}

/// The views of the first `n` of `children`.
pub open spec fn child_views(children: Seq<LayoutNode>, n: nat) -> Seq<NodeView>
    decreases children, n,
{
    if n == 0 || n > children.len() {
        Seq::empty()
    } else {
        child_views(children, (n - 1) as nat).push(node_view(children[n - 1]))
    }
}

impl View for LayoutNode {
    type V = NodeView;

    open spec fn view(&self) -> NodeView {
        node_view(*self)
    }
}

/// The views of the first `n` children are the first `n` of their views.
pub proof fn lemma_child_views(children: Seq<LayoutNode>, n: nat)
    requires
        n <= children.len(),
    ensures
        child_views(children, n) == node_views(children).take(n as int),
    decreases n,
{
    if n > 0 {
        lemma_child_views(children, (n - 1) as nat);
    }
    assert(child_views(children, n) =~= node_views(children).take(n as int));
}

/// The view of a split is the split of the views of its children.
pub proof fn lemma_view(node: &LayoutNode)
    ensures
        match *node {
            LayoutNode::Split { axis, children, weights } => node@ == (NodeView::Split {
                axis,
                children: node_views(children@),
                weights: weights@,
            }),
            LayoutNode::Tabs { panels, active } => node@ == (NodeView::Tabs {
                panels: panel_views(panels@),
                active: active as nat,
            }),
        },
{
    match *node {
        LayoutNode::Split { axis, children, weights } => {
            lemma_child_views(children@, children@.len());
            assert(node_views(children@).take(children@.len() as int) =~= node_views(children@));
        },
        LayoutNode::Tabs { .. } => {},
    }
}

/// The view of a node that may be absent.
pub open spec fn view_of(node: Option<LayoutNode>) -> Option<NodeView> {
    match node {
        Some(n) => Some(n@),
        None => None,
    }
}

/// The view of a borrowed node that may be absent.
pub open spec fn view_of_ref(node: Option<&LayoutNode>) -> Option<NodeView> {
    match node {
        Some(n) => Some(n@),
        None => None,
    }
}

impl NodeView {
    /// The invariant of the layout tree: every split has at least two
    /// children and one weight for each, its weights add up to
    /// [`WEIGHT_TOTAL`], and every tab group holds at least one panel and has
    /// its active index among them.
    pub open spec fn wf(self) -> bool
        decreases self,
    {
        match self {
            NodeView::Split { axis, children, weights } => {
                &&& children.len() >= 2
                &&& weights.len() == children.len()
                &&& total(weights) == WEIGHT_TOTAL
                &&& forall|i: int| 0 <= i < children.len() ==> (#[trigger] children[i]).wf()
            },
            NodeView::Tabs { panels, active } => panels.len() >= 1 && active < panels.len(),
        }
    }
}

impl NodeView {
    /// Whether every child of every split has an index that fits in `usize`.
    /// The view of every tree in memory is such.
    pub open spec fn addressable(self) -> bool
        decreases self,
    {
        match self {
            NodeView::Split { children, .. } => {
                &&& children.len() <= usize::MAX
                &&& forall|i: int|
                    0 <= i < children.len() ==> (#[trigger] children[i]).addressable()
            },
            NodeView::Tabs { .. } => true,
        }
    }
}

/// The view of a tree in memory is addressable.
pub proof fn lemma_view_addressable(node: LayoutNode)
    ensures
        node@.addressable(),
    decreases node, 0nat,
{
    match node {
        LayoutNode::Split { children, .. } => {
            lemma_child_views_addressable(children@, children@.len());
            assert(children@.len() == children.len());
        },
        LayoutNode::Tabs { .. } => {},
    }
}

/// The views of the children of a split in memory are addressable.
pub proof fn lemma_child_views_addressable(children: Seq<LayoutNode>, n: nat)
    requires
        n <= children.len(),
    ensures
        child_views(children, n).len() == n,
        forall|i: int| 0 <= i < n ==> (#[trigger] child_views(children, n)[i]).addressable(),
    decreases children, n,
{
    if n > 0 {
        lemma_child_views_addressable(children, (n - 1) as nat);
        lemma_view_addressable(children[n - 1]);
    }
}

/// The node that `path` leads to from `t`: each entry of the path is the
/// index of a child of a split. None where the path leaves the tree.
pub open spec fn subtree(t: NodeView, path: Seq<usize>) -> Option<NodeView>
    decreases path.len(),
{
    if path.len() == 0 {
        Some(t)
    } else {
        match t {
            NodeView::Split { children, .. } => if path[0] < children.len() {
                subtree(children[path[0] as int], path.skip(1))
            } else {
                None
            },
            NodeView::Tabs { .. } => None,
        }
    }
}

/// The tree `t` with the node that `path` leads to replaced by `sub`; `t`
/// itself where the path leaves the tree.
pub open spec fn with_subtree(t: NodeView, path: Seq<usize>, sub: NodeView) -> NodeView
    decreases path.len(),
{
    if path.len() == 0 {
        sub
    } else {
        match t {
            NodeView::Split { axis, children, weights } => if path[0] < children.len() {
                NodeView::Split {
                    axis,
                    children: children.update(
                        path[0] as int,
                        with_subtree(children[path[0] as int], path.skip(1), sub),
                    ),
                    weights,
                }
            } else {
                t
            },
            NodeView::Tabs { .. } => t,
        }
    }
}

/// The weight at `i`, zero where there is none.
pub open spec fn weight_at(weights: Seq<u32>, i: int) -> u32 {
    if 0 <= i < weights.len() {
        weights[i]
    } else {
        0
    }
}

/// The tree `t` brought to its simplest form: tab groups without panels are
/// dropped, a split left with one child gives way to that child, the weights
/// of every split are normalized, and an active index beyond the last panel
/// is set to the last panel. None where the tree holds no panel at all.
pub open spec fn simplified(t: NodeView) -> Option<NodeView>
    decreases t, 0nat,
{
    match t {
        NodeView::Tabs { panels, active } => if panels.len() == 0 {
            None
        } else {
            Some(
                NodeView::Tabs {
                    panels,
                    active: if active < panels.len() {
                        active
                    } else {
                        (panels.len() - 1) as nat
                    },
                },
            )
        },
        NodeView::Split { axis, children, weights } => {
            let kept = kept_children(children, weights, children.len());
            if kept.0.len() == 0 {
                None
            } else if kept.0.len() == 1 {
                Some(kept.0[0])
            } else {
                Some(NodeView::Split { axis, children: kept.0, weights: normalized(kept.1) })
            }
        },
    }
}

/// Of the first `n` children, those that still hold a panel, each in its
/// simplest form, and beside them the weights they had.
pub open spec fn kept_children(children: Seq<NodeView>, weights: Seq<u32>, n: nat) -> (
    Seq<NodeView>,
    Seq<u32>,
)
    decreases children, n,
{
    if n == 0 || n > children.len() {
        (Seq::empty(), Seq::empty())
    } else {
        let rest = kept_children(children, weights, (n - 1) as nat);
        match simplified(children[n - 1]) {
            Some(c) => (rest.0.push(c), rest.1.push(weight_at(weights, n - 1))),
            None => rest,
        }
    }
}

/// Whatever the tree was, its simplest form meets the invariant.
pub proof fn lemma_simplified_wf(t: NodeView)
    ensures
        simplified(t) matches Some(r) ==> r.wf(),
    decreases t, 0nat,
{
    match t {
        NodeView::Tabs { .. } => {},
        NodeView::Split { axis, children, weights } => {
            lemma_kept_children_wf(children, weights, children.len());
            let kept = kept_children(children, weights, children.len());
            if kept.0.len() >= 2 {
                lemma_normalized_total(kept.1);
            }
        },
    }
}

/// The children that are kept meet the invariant, and each has its weight.
pub proof fn lemma_kept_children_wf(children: Seq<NodeView>, weights: Seq<u32>, n: nat)
    ensures
        kept_children(children, weights, n).0.len() == kept_children(children, weights, n).1.len(),
        forall|i: int|
            0 <= i < kept_children(children, weights, n).0.len() ==> (#[trigger] kept_children(
                children,
                weights,
                n,
            ).0[i]).wf(),
    decreases children, n,
{
    if n == 0 || n > children.len() {
    } else {
        lemma_kept_children_wf(children, weights, (n - 1) as nat);
        lemma_simplified_wf(children[n - 1]);
    }
}

/// A tree that meets the invariant is its own simplest form.
pub proof fn lemma_simplified_fixed_point(t: NodeView)
    requires
        t.wf(),
    ensures
        simplified(t) == Some(t),
    decreases t, 0nat,
{
    match t {
        NodeView::Tabs { .. } => {},
        NodeView::Split { axis, children, weights } => {
            lemma_kept_children_fixed_point(children, weights, children.len());
            assert(children.take(children.len() as int) =~= children);
            assert(weights.take(children.len() as int) =~= weights);
            lemma_normalized_fixed_point(weights);
        },
    }
}

/// Children that all meet the invariant are all kept as they are.
pub proof fn lemma_kept_children_fixed_point(children: Seq<NodeView>, weights: Seq<u32>, n: nat)
    requires
        n <= children.len(),
        weights.len() == children.len(),
        forall|i: int| 0 <= i < children.len() ==> (#[trigger] children[i]).wf(),
    ensures
        kept_children(children, weights, n) == (children.take(n as int), weights.take(n as int)),
    decreases children, n,
{
    if n == 0 {
        assert(children.take(0) =~= Seq::empty());
        assert(weights.take(0) =~= Seq::empty());
    } else {
        lemma_kept_children_fixed_point(children, weights, (n - 1) as nat);
        lemma_simplified_fixed_point(children[n - 1]);
        assert(children.take(n as int) =~= children.take(n - 1).push(children[n - 1]));
        assert(weights.take(n as int) =~= weights.take(n - 1).push(weights[n - 1]));
    }
}

/// A copy of `panels`.
fn duplicate_panels(panels: &Vec<Panel>) -> (r: Vec<Panel>)
    ensures
        panel_views(r@) == panel_views(panels@),
{
    let mut out: Vec<Panel> = Vec::new();
    let mut i: usize = 0;
    while i < panels.len()
        invariant
            i <= panels.len(),
            out.len() == i,
            forall|k: int| 0 <= k < i ==> out[k]@ == panels[k]@,
        decreases panels.len() - i,
    {
        out.push(panels[i].duplicate());
        i = i + 1;
    }
    assert(panel_views(out@) =~= panel_views(panels@));
    out
}

/// A copy of `weights`.
fn duplicate_weights(weights: &Vec<u32>) -> (r: Vec<u32>)
    ensures
        r@ == weights@,
{
    let mut out: Vec<u32> = Vec::new();
    let mut i: usize = 0;
    while i < weights.len()
        invariant
            i <= weights.len(),
            out.len() == i,
            forall|k: int| 0 <= k < i ==> out[k] == weights[k],
        decreases weights.len() - i,
    {
        out.push(weights[i]);
        i = i + 1;
    }
    assert(out@ =~= weights@);
    out
}

impl LayoutNode {
    /// A tab group that holds `panel` alone.
    pub fn single(panel: Panel) -> (r: LayoutNode)
        ensures
            r@ == (NodeView::Tabs { panels: seq![panel@], active: 0 }),
            r@.wf(),
    {
        let mut panels: Vec<Panel> = Vec::new();
        panels.push(panel);
        let r = LayoutNode::Tabs { panels, active: 0 };
        assert(panel_views(panels@) =~= seq![panel@]);
        r
    }

    /// Whether the tree meets the invariant of the layout tree.
    pub fn is_valid(&self) -> (r: bool)
        ensures
            r == self@.wf(),
        decreases self,
    {
        proof {
            lemma_view(self);
        }
        match self {
            LayoutNode::Split { axis, children, weights } => {
                if children.len() < 2 || weights.len() != children.len() {
                    return false;
                }
                if sum_of(weights) != WEIGHT_TOTAL as u128 {
                    return false;
                }
                let mut i: usize = 0;
                while i < children.len()
                    invariant
                        *self == (LayoutNode::Split {
                            axis: *axis,
                            children: *children,
                            weights: *weights,
                        }),
                        i <= children.len(),
                        children.len() >= 2,
                        weights.len() == children.len(),
                        total(weights@) == WEIGHT_TOTAL,
                        forall|k: int| 0 <= k < i ==> (#[trigger] node_views(children@)[k]).wf(),
                    decreases children.len() - i,
                {
                    assert(self->children == *children);
                    assert(decreases_to!(self => self->children));
                    assert(decreases_to!(self->children => self->children[i as int]));
                    if !children[i].is_valid() {
                        proof {
                            lemma_view(self);
                            assert(!node_views(children@)[i as int].wf());
                        }
                        return false;
                    }
                    i = i + 1;
                }
                true
            },
            LayoutNode::Tabs { panels, active } => panels.len() >= 1 && *active < panels.len(),
        }
    }

    /// A copy of the tree.
    pub fn duplicate(&self) -> (r: LayoutNode)
        ensures
            r@ == self@,
        decreases self,
    {
        match self {
            LayoutNode::Split { axis, children, weights } => {
                let mut out: Vec<LayoutNode> = Vec::new();
                let mut i: usize = 0;
                while i < children.len()
                    invariant
                        *self == (LayoutNode::Split {
                            axis: *axis,
                            children: *children,
                            weights: *weights,
                        }),
                        i <= children.len(),
                        out.len() == i,
                        forall|k: int| 0 <= k < i ==> out[k]@ == children[k]@,
                    decreases children.len() - i,
                {
                    assert(self->children == *children);
                    assert(decreases_to!(self => self->children));
                    assert(decreases_to!(self->children => self->children[i as int]));
                    out.push(children[i].duplicate());
                    i = i + 1;
                }
                let r = LayoutNode::Split {
                    axis: *axis,
                    children: out,
                    weights: duplicate_weights(weights),
                };
                proof {
                    lemma_view(self);
                    lemma_view(&r);
                    assert(node_views(out@) =~= node_views(children@));
                }
                r
            },
            LayoutNode::Tabs { panels, active } => {
                let r = LayoutNode::Tabs { panels: duplicate_panels(panels), active: *active };
                r
            },
        }
    }

    /// The tree in its simplest form, which always meets the invariant; none
    /// where the tree holds no panel.
    pub fn simplify(&self) -> (r: Option<LayoutNode>)
        ensures
            view_of(r) == simplified(self@),
            r matches Some(n) ==> n@.wf(),
            self@.wf() ==> view_of(r) == Some(self@),
        decreases self,
    {
        proof {
            lemma_simplified_wf(self@);
            if self@.wf() {
                lemma_simplified_fixed_point(self@);
            }
        }
        match self {
            LayoutNode::Split { axis, children, weights } => {
                let mut kept: Vec<LayoutNode> = Vec::new();
                let mut kept_weights: Vec<u32> = Vec::new();
                let mut i: usize = 0;
                while i < children.len()
                    invariant
                        *self == (LayoutNode::Split {
                            axis: *axis,
                            children: *children,
                            weights: *weights,
                        }),
                        i <= children.len(),
                        node_views(kept@) == kept_children(
                            node_views(children@),
                            weights@,
                            i as nat,
                        ).0,
                        kept_weights@ == kept_children(node_views(children@), weights@, i as nat).1,
                    decreases children.len() - i,
                {
                    let w: u32 = if i < weights.len() {
                        weights[i]
                    } else {
                        0
                    };
                    let ghost before = node_views(kept@);
                    assert(self->children == *children);
                    assert(decreases_to!(self => self->children));
                    assert(decreases_to!(self->children => self->children[i as int]));
                    match children[i].simplify() {
                        Some(c) => {
                            kept.push(c);
                            kept_weights.push(w);
                            assert(node_views(kept@) =~= before.push(c@));
                        },
                        None => {},
                    }
                    i = i + 1;
                }
                proof {
                    lemma_view(self);
                }
                if kept.len() == 0 {
                    None
                } else if kept.len() == 1 {
                    kept.pop()
                } else {
                    let r = LayoutNode::Split {
                        axis: *axis,
                        children: kept,
                        weights: normalize(&kept_weights),
                    };
                    proof {
                        lemma_view(&r);
                    }
                    Some(r)
                }
            },
            LayoutNode::Tabs { panels, active } => {
                if panels.len() == 0 {
                    None
                } else {
                    let a: usize = if *active < panels.len() {
                        *active
                    } else {
                        panels.len() - 1
                    };
                    Some(LayoutNode::Tabs { panels: duplicate_panels(panels), active: a })
                }
            },
        }
    }
}

/// Why a change to the layout was refused. The tree is then left as it was.
#[derive(Clone, Copy, Debug, PartialEq, Eq, Structural)]
pub enum LayoutError {
    /// A position does not lead to a node of the kind that the change needs.
    InvalidPosition,
    /// The panel is not where it was said to be, or not in the tree.
    PanelNotFound,
    /// The panel may not be closed.
    NotClosable,
    /// There is not one ratio for each child of the split.
    RatioMismatch,
}

/// The view of what a change to the layout gave.
pub open spec fn outcome_view(r: Result<LayoutNode, LayoutError>) -> Result<NodeView, LayoutError> {
    match r {
        Ok(n) => Ok(n@),
        Err(e) => Err(e),
    }
}

/// The ratio of a new split: two equal parts where none is given.
pub open spec fn ratio_pair(ratio: Option<(u32, u32)>) -> Seq<u32> {
    match ratio {
        Some((first, second)) => seq![first, second],
        None => seq![1u32, 1u32],
    }
}

/// The tab group that is left when the panel at `i` is taken out. The panel
/// that was active stays active where it can; where the active panel itself
/// leaves, the panel that follows it takes its place.
pub open spec fn without_panel(panels: Seq<PanelView>, active: nat, i: int) -> NodeView {
    NodeView::Tabs {
        panels: panels.remove(i),
        active: if i < active {
            (active - 1) as nat
        } else {
            active
        },
    }
}

/// The tab group with `panel` added behind the others and made active.
pub open spec fn with_panel(panels: Seq<PanelView>, panel: PanelView) -> NodeView {
    NodeView::Tabs { panels: panels.push(panel), active: panels.len() }
}

/// What splitting the node at `target` gives: that node and a new tab group
/// with `panel` alone become the two children of a new split in its place.
pub open spec fn split_outcome(
    t: NodeView,
    target: Seq<usize>,
    axis: Axis,
    panel: PanelView,
    ratio: Option<(u32, u32)>,
) -> Result<NodeView, LayoutError> {
    match subtree(t, target) {
        Some(existing) => Ok(
            with_subtree(
                t,
                target,
                NodeView::Split {
                    axis,
                    children: seq![existing, NodeView::Tabs { panels: seq![panel], active: 0 }],
                    weights: normalized(ratio_pair(ratio)),
                },
            ),
        ),
        None => Err(LayoutError::InvalidPosition),
    }
}

/// What giving the split at `position` new ratios gives.
pub open spec fn resize_outcome(t: NodeView, position: Seq<usize>, ratios: Seq<u32>) -> Result<
    NodeView,
    LayoutError,
> {
    match subtree(t, position) {
        Some(NodeView::Split { axis, children, weights }) => if ratios.len() == children.len() {
            Ok(
                with_subtree(
                    t,
                    position,
                    NodeView::Split { axis, children, weights: normalized(ratios) },
                ),
            )
        } else {
            Err(LayoutError::RatioMismatch)
        },
        _ => Err(LayoutError::InvalidPosition),
    }
}

/// What moving the panel `id` from the tab group at `from` to the tab group
/// at `to` gives. Both positions are those of the tree before the move. The
/// panel is taken out of its group, goes behind the panels of its new group
/// and becomes active there; the tree is then brought to its simplest form.
pub open spec fn move_outcome(t: NodeView, id: u64, from: Seq<usize>, to: Seq<usize>) -> Result<
    NodeView,
    LayoutError,
> {
    match subtree(t, from) {
        Some(NodeView::Tabs { panels, active }) => match panel_position(panels, id, 0) {
            Some(i) => match subtree(t, to) {
                Some(NodeView::Tabs { .. }) => {
                    let taken = with_subtree(t, from, without_panel(panels, active, i));
                    let others = subtree(taken, to).unwrap()->panels;
                    Ok(simplified(with_subtree(taken, to, with_panel(others, panels[i]))).unwrap())
                },
                _ => Err(LayoutError::InvalidPosition),
            },
            None => Err(LayoutError::PanelNotFound),
        },
        _ => Err(LayoutError::PanelNotFound),
    }
}

/// Where the panel `id` is: the position of the first tab group that holds
/// it, going through the children of each split in order, and its index there.
pub open spec fn find_panel(t: NodeView, id: u64) -> Option<(Seq<usize>, int)>
    decreases t, 0nat,
{
    match t {
        NodeView::Tabs { panels, .. } => match panel_position(panels, id, 0) {
            Some(i) => Some((Seq::empty(), i)),
            None => None,
        },
        NodeView::Split { children, .. } => find_in_children(children, id, children.len()),
    }
}

/// Where the panel `id` is among the first `n` children. A child whose index
/// does not fit in `usize` cannot be reached by a position and is not looked
/// at; a tree in memory has no such child.
pub open spec fn find_in_children(children: Seq<NodeView>, id: u64, n: nat) -> Option<
    (Seq<usize>, int),
>
    decreases children, n,
{
    if n == 0 || n > children.len() {
        None
    } else {
        match find_in_children(children, id, (n - 1) as nat) {
            Some(found) => Some(found),
            None => if n - 1 <= usize::MAX {
                match find_panel(children[n - 1], id) {
                    Some((path, i)) => Some((seq![(n - 1) as usize] + path, i)),
                    None => None,
                }
            } else {
                None
            },
        }
    }
}

/// What closing the panel `id` gives. The last panel of the tree cannot be
/// closed, since the tree always holds one.
pub open spec fn close_outcome(t: NodeView, id: u64) -> Result<NodeView, LayoutError> {
    match find_panel(t, id) {
        Some((path, i)) => {
            let group = subtree(t, path).unwrap();
            let panels = group->panels;
            if !panels[i].closable {
                Err(LayoutError::NotClosable)
            } else {
                match simplified(with_subtree(t, path, without_panel(panels, group->active, i))) {
                    Some(r) => Ok(r),
                    None => Err(LayoutError::NotClosable),
                }
            }
        },
        None => Err(LayoutError::PanelNotFound),
    }
}

/// What making the panel `id` the active one of its tab group gives.
pub open spec fn activate_outcome(t: NodeView, id: u64) -> Result<NodeView, LayoutError> {
    match find_panel(t, id) {
        Some((path, i)) => Ok(
            with_subtree(
                t,
                path,
                NodeView::Tabs { panels: subtree(t, path).unwrap()->panels, active: i as nat },
            ),
        ),
        None => Err(LayoutError::PanelNotFound),
    }
}

/// A node of a tree that meets the invariant meets it too.
pub proof fn lemma_subtree_wf(t: NodeView, path: Seq<usize>)
    requires
        t.wf(),
    ensures
        subtree(t, path) matches Some(n) ==> n.wf(),
    decreases path.len(),
{
    if path.len() > 0 {
        match t {
            NodeView::Split { children, .. } => {
                if path[0] < children.len() {
                    lemma_subtree_wf(children[path[0] as int], path.skip(1));
                }
            },
            NodeView::Tabs { .. } => {},
        }
    }
}

/// Replacing a node by one that meets the invariant keeps the invariant.
pub proof fn lemma_with_subtree_wf(t: NodeView, path: Seq<usize>, sub: NodeView)
    requires
        t.wf(),
        sub.wf(),
    ensures
        with_subtree(t, path, sub).wf(),
    decreases path.len(),
{
    if path.len() > 0 {
        match t {
            NodeView::Split { children, .. } => {
                if path[0] < children.len() {
                    lemma_with_subtree_wf(children[path[0] as int], path.skip(1), sub);
                }
            },
            NodeView::Tabs { .. } => {},
        }
    }
}

/// The node that was put at a position is the node found there.
pub proof fn lemma_subtree_of_with_subtree(t: NodeView, path: Seq<usize>, sub: NodeView)
    requires
        subtree(t, path) is Some,
    ensures
        subtree(with_subtree(t, path, sub), path) == Some(sub),
    decreases path.len(),
{
    if path.len() > 0 {
        match t {
            NodeView::Split { children, .. } => {
                lemma_subtree_of_with_subtree(children[path[0] as int], path.skip(1), sub);
            },
            NodeView::Tabs { .. } => {},
        }
    }
}

/// Replacing a tab group by a tab group moves nothing: every position leads
/// to a tab group afterwards if and only if it did before.
pub proof fn lemma_groups_stay_in_place(
    t: NodeView,
    from: Seq<usize>,
    group: NodeView,
    to: Seq<usize>,
)
    requires
        subtree(t, from) matches Some(NodeView::Tabs { .. }),
        group is Tabs,
    ensures
        subtree(with_subtree(t, from, group), to) matches Some(NodeView::Tabs { .. }) <==> subtree(
            t,
            to,
        ) matches Some(NodeView::Tabs { .. }),
    decreases to.len(),
{
    if to.len() > 0 && from.len() > 0 {
        match t {
            NodeView::Split { children, .. } => {
                if to[0] == from[0] {
                    lemma_groups_stay_in_place(
                        children[from[0] as int],
                        from.skip(1),
                        group,
                        to.skip(1),
                    );
                }
            },
            NodeView::Tabs { .. } => {},
        }
    }
}

/// A child that still holds a panel is kept.
pub proof fn lemma_kept_children_nonempty(
    children: Seq<NodeView>,
    weights: Seq<u32>,
    n: nat,
    k: int,
)
    requires
        0 <= k < n <= children.len(),
        simplified(children[k]) is Some,
    ensures
        kept_children(children, weights, n).0.len() >= 1,
    decreases n,
{
    if k < n - 1 {
        lemma_kept_children_nonempty(children, weights, (n - 1) as nat, k);
    }
}

/// A tree with a node that still holds a panel holds a panel itself.
pub proof fn lemma_simplified_some(t: NodeView, path: Seq<usize>)
    requires
        subtree(t, path) matches Some(n) && simplified(n) is Some,
    ensures
        simplified(t) is Some,
    decreases path.len(),
{
    if path.len() > 0 {
        match t {
            NodeView::Split { children, weights, .. } => {
                lemma_simplified_some(children[path[0] as int], path.skip(1));
                lemma_kept_children_nonempty(children, weights, children.len(), path[0] as int);
            },
            NodeView::Tabs { .. } => {},
        }
    }
}

/// Once the panel is found among the first children, looking at more
/// children finds it at the same place.
pub proof fn lemma_find_in_children_stable(children: Seq<NodeView>, id: u64, k: nat, n: nat)
    requires
        k <= n <= children.len(),
        find_in_children(children, id, k) is Some,
    ensures
        find_in_children(children, id, n) == find_in_children(children, id, k),
    decreases n,
{
    if k < n {
        lemma_find_in_children_stable(children, id, k, (n - 1) as nat);
    }
}

/// Where a panel is found, there is a tab group that holds it at the index
/// found.
pub proof fn lemma_find_panel(t: NodeView, id: u64)
    ensures
        find_panel(t, id) matches Some((path, i)) ==> (subtree(t, path) matches Some(
            NodeView::Tabs { panels, .. },
        ) && 0 <= i < panels.len() && panels[i].id == id),
    decreases t, 0nat,
{
    match t {
        NodeView::Tabs { panels, .. } => {
            lemma_panel_position(panels, id, 0);
        },
        NodeView::Split { children, .. } => {
            lemma_find_in_children(children, id, children.len(), t);
        },
    }
}

/// The same, for a panel found among the first `n` children of the split `t`.
pub proof fn lemma_find_in_children(children: Seq<NodeView>, id: u64, n: nat, t: NodeView)
    requires
        t is Split,
        t->children == children,
    ensures
        find_in_children(children, id, n) matches Some((path, i)) ==> (subtree(t, path) matches Some(
            NodeView::Tabs { panels, .. },
        ) && 0 <= i < panels.len() && panels[i].id == id),
    decreases children, n,
{
    if n == 0 || n > children.len() {
    } else {
        lemma_find_in_children(children, id, (n - 1) as nat, t);
        if find_in_children(children, id, (n - 1) as nat) is None && n - 1 <= usize::MAX {
            lemma_find_panel(children[n - 1], id);
            match find_panel(children[n - 1], id) {
                Some((path, i)) => {
                    let full = seq![(n - 1) as usize] + path;
                    assert(full.skip(1) =~= path);
                    assert(full[0] == (n - 1) as usize);
                },
                None => {},
            }
        }
    }
}

/// Adds copies of the children from `from` up to `to` behind `out`.
fn push_copies(out: &mut Vec<LayoutNode>, children: &Vec<LayoutNode>, from: usize, to: usize)
    requires
        from <= to <= children.len(),
    ensures
        node_views(final(out)@) == node_views(old(out)@) + node_views(children@).subrange(
            from as int,
            to as int,
        ),
{
    let mut i: usize = from;
    while i < to
        invariant
            from <= i <= to <= children.len(),
            node_views(out@) == node_views(old(out)@) + node_views(children@).subrange(
                from as int,
                i as int,
            ),
        decreases to - i,
    {
        let ghost before = node_views(out@);
        out.push(children[i].duplicate());
        assert(node_views(out@) =~= before.push(children[i as int]@));
        assert(node_views(out@) =~= node_views(old(out)@) + node_views(children@).subrange(
            from as int,
            i + 1,
        ));
        i = i + 1;
    }
}

/// The index of the first of `panels` that is the panel `id`.
pub fn position_of(panels: &Vec<Panel>, id: u64) -> (r: Option<usize>)
    ensures
        match r {
            Some(i) => panel_position(panel_views(panels@), id, 0) == Some(i as int),
            None => panel_position(panel_views(panels@), id, 0) is None,
        },
{
    let mut i: usize = 0;
    while i < panels.len()
        invariant
            i <= panels.len(),
            panel_position(panel_views(panels@), id, 0) == panel_position(
                panel_views(panels@),
                id,
                i as int,
            ),
        decreases panels.len() - i,
    {
        if panels[i].id == id {
            return Some(i);
        }
        i = i + 1;
    }
    None
}

/// Copies of `panels` but for the one at `i`.
fn panels_without(panels: &Vec<Panel>, i: usize) -> (r: Vec<Panel>)
    requires
        i < panels.len(),
    ensures
        panel_views(r@) == panel_views(panels@).remove(i as int),
{
    let mut out: Vec<Panel> = Vec::new();
    let mut k: usize = 0;
    while k < panels.len()
        invariant
            k <= panels.len(),
            i < panels.len(),
            out.len() == (if k <= i { k as int } else { k - 1 }),
            forall|j: int| 0 <= j < out.len() ==> out[j]@ == (if j < i { panels[j]@ } else { panels[j + 1]@ }),
        decreases panels.len() - k,
    {
        if k != i {
            out.push(panels[k].duplicate());
        }
        k = k + 1;
    }
    assert(panel_views(out@) =~= panel_views(panels@).remove(i as int));
    out
}

impl LayoutNode {
    /// The node that `path` leads to, if it leads to one.
    pub fn node_at(&self, path: &Vec<usize>) -> (r: Option<&LayoutNode>)
        ensures
            view_of_ref(r) == subtree(self@, path@),
    {
        let mut cur: &LayoutNode = self;
        let mut i: usize = 0;
        assert(path@.skip(0) =~= path@);
        while i < path.len()
            invariant
                i <= path.len(),
                subtree(self@, path@) == subtree(cur@, path@.skip(i as int)),
            decreases path.len() - i,
        {
            proof {
                lemma_view(cur);
                assert(path@.skip(i as int).skip(1) =~= path@.skip(i + 1));
            }
            match cur {
                LayoutNode::Split { children, .. } => {
                    let idx: usize = path[i];
                    if idx < children.len() {
                        cur = &children[idx];
                    } else {
                        return None;
                    }
                },
                LayoutNode::Tabs { .. } => {
                    return None;
                },
            }
            i = i + 1;
        }
        Some(cur)
    }

    /// The tree with the node that `path` leads to, from its entry `depth`
    /// on, replaced by `sub`.
    fn replaced(&self, path: &Vec<usize>, depth: usize, sub: LayoutNode) -> (r: LayoutNode)
        requires
            depth <= path.len(),
        ensures
            r@ == with_subtree(self@, path@.skip(depth as int), sub@),
        decreases path.len() - depth,
    {
        if depth == path.len() {
            return sub;
        }
        proof {
            lemma_view(self);
            assert(path@.skip(depth as int).skip(1) =~= path@.skip(depth + 1));
        }
        match self {
            LayoutNode::Split { axis, children, weights } => {
                let idx: usize = path[depth];
                if idx < children.len() {
                    let mut out: Vec<LayoutNode> = Vec::new();
                    push_copies(&mut out, children, 0, idx);
                    let ghost first = node_views(out@);
                    let child = children[idx].replaced(path, depth + 1, sub);
                    out.push(child);
                    assert(node_views(out@) =~= first.push(child@));
                    push_copies(&mut out, children, idx + 1, children.len());
                    let r = LayoutNode::Split {
                        axis: *axis,
                        children: out,
                        weights: duplicate_weights(weights),
                    };
                    proof {
                        lemma_view(&r);
                        assert(node_views(out@) =~= node_views(children@).update(
                            idx as int,
                            child@,
                        ));
                    }
                    r
                } else {
                    self.duplicate()
                }
            },
            LayoutNode::Tabs { .. } => self.duplicate(),
        }
    }

    /// The tree with the node that `path` leads to replaced by `sub`; a copy
    /// of the tree where the path leads to no node.
    pub fn replace(&self, path: &Vec<usize>, sub: LayoutNode) -> (r: LayoutNode)
        ensures
            r@ == with_subtree(self@, path@, sub@),
            self@.wf() && sub@.wf() ==> r@.wf(),
    {
        proof {
            assert(path@.skip(0) =~= path@);
            if self@.wf() && sub@.wf() {
                lemma_with_subtree_wf(self@, path@, sub@);
            }
        }
        self.replaced(path, 0, sub)
    }

    /// Puts `new_panel` beside the node at `target`: a new split along `axis`
    /// takes the place of that node and holds it as its first child, and a tab
    /// group with the new panel as its second. `ratio` gives the sizes of the
    /// two, equal where it is absent.
    ///
    /// Fails with `InvalidPosition` where `target` leads to no node.
    pub fn split(
        &self,
        target: &Vec<usize>,
        axis: Axis,
        new_panel: Panel,
        ratio: Option<(u32, u32)>,
    ) -> (r: Result<LayoutNode, LayoutError>)
        ensures
            outcome_view(r) == split_outcome(self@, target@, axis, new_panel@, ratio),
            self@.wf() ==> (r matches Ok(n) ==> n@.wf()),
    {
        match self.node_at(target) {
            Some(existing) => {
                let mut children: Vec<LayoutNode> = Vec::new();
                children.push(existing.duplicate());
                children.push(LayoutNode::single(new_panel));
                let mut ratios: Vec<u32> = Vec::new();
                match ratio {
                    Some((first, second)) => {
                        ratios.push(first);
                        ratios.push(second);
                    },
                    None => {
                        ratios.push(1);
                        ratios.push(1);
                    },
                }
                assert(ratios@ =~= ratio_pair(ratio));
                let sub = LayoutNode::Split { axis, children, weights: normalize(&ratios) };
                proof {
                    lemma_view(&sub);
                    assert(node_views(children@) =~= seq![
                        existing@,
                        NodeView::Tabs { panels: seq![new_panel@], active: 0 },
                    ]);
                    if self@.wf() {
                        lemma_subtree_wf(self@, target@);
                        assert(sub@.wf());
                    }
                }
                Ok(self.replace(target, sub))
            },
            None => Err(LayoutError::InvalidPosition),
        }
    }

    /// Gives the children of the split at `position` new sizes, in the
    /// proportions of `ratios`.
    ///
    /// Fails with `InvalidPosition` where `position` leads to no split, and
    /// with `RatioMismatch` where there is not one ratio for each child.
    pub fn resize(&self, position: &Vec<usize>, ratios: &Vec<u32>) -> (r: Result<
        LayoutNode,
        LayoutError,
    >)
        ensures
            outcome_view(r) == resize_outcome(self@, position@, ratios@),
            self@.wf() ==> (r matches Ok(n) ==> n@.wf()),
    {
        match self.node_at(position) {
            Some(node) => {
                proof {
                    lemma_view(node);
                }
                match node {
                    LayoutNode::Split { axis, children, weights } => {
                        if ratios.len() != children.len() {
                            return Err(LayoutError::RatioMismatch);
                        }
                        let mut copies: Vec<LayoutNode> = Vec::new();
                        push_copies(&mut copies, children, 0, children.len());
                        let sub = LayoutNode::Split {
                            axis: *axis,
                            children: copies,
                            weights: normalize(ratios),
                        };
                        proof {
                            lemma_view(&sub);
                            assert(node_views(copies@) =~= node_views(children@));
                            if self@.wf() {
                                lemma_subtree_wf(self@, position@);
                                assert(sub@.wf());
                            }
                        }
                        Ok(self.replace(position, sub))
                    },
                    LayoutNode::Tabs { .. } => Err(LayoutError::InvalidPosition),
                }
            },
            None => Err(LayoutError::InvalidPosition),
        }
    }

    /// Moves the panel `panel_id` from the tab group at `from` to the tab
    /// group at `to`, behind the panels that are there, and makes it active
    /// there. A tab group left without panels is dropped, and a split left
    /// with one child gives way to that child.
    ///
    /// Fails with `PanelNotFound` where `from` leads to no tab group that holds
    /// the panel, and with `InvalidPosition` where `to` leads to no tab group.
    pub fn move_panel(&self, panel_id: u64, from: &Vec<usize>, to: &Vec<usize>) -> (r: Result<
        LayoutNode,
        LayoutError,
    >)
        ensures
            outcome_view(r) == move_outcome(self@, panel_id, from@, to@),
            r matches Ok(n) ==> n@.wf(),
    {
        let source = match self.node_at(from) {
            Some(node) => node,
            None => {
                return Err(LayoutError::PanelNotFound);
            },
        };
        proof {
            lemma_view(source);
        }
        match source {
            LayoutNode::Tabs { panels, active } => {
                let i: usize = match position_of(panels, panel_id) {
                    Some(i) => i,
                    None => {
                        return Err(LayoutError::PanelNotFound);
                    },
                };
                proof {
                    lemma_panel_position(panel_views(panels@), panel_id, 0);
                }
                let rest = LayoutNode::Tabs {
                    panels: panels_without(panels, i),
                    active: if i < *active {
                        *active - 1
                    } else {
                        *active
                    },
                };
                match self.node_at(to) {
                    Some(LayoutNode::Tabs { .. }) => {},
                    _ => {
                        return Err(LayoutError::InvalidPosition);
                    },
                }
                let taken = self.replace(from, rest);
                proof {
                    lemma_view(&rest);
                    lemma_groups_stay_in_place(self@, from@, rest@, to@);
                }
                let target = match taken.node_at(to) {
                    Some(node) => node,
                    None => {
                        return Err(LayoutError::InvalidPosition);
                    },
                };
                proof {
                    lemma_view(target);
                }
                match target {
                    LayoutNode::Tabs { panels: others, active: _ } => {
                        let mut joined = duplicate_panels(others);
                        let ghost before = panel_views(joined@);
                        joined.push(panels[i].duplicate());
                        assert(panel_views(joined@) =~= before.push(panels[i as int]@));
                        let grown = LayoutNode::Tabs { panels: joined, active: others.len() };
                        let moved = taken.replace(to, grown);
                        proof {
                            lemma_subtree_of_with_subtree(taken@, to@, grown@);
                            lemma_simplified_some(moved@, to@);
                        }
                        match moved.simplify() {
                            Some(n) => Ok(n),
                            None => Err(LayoutError::InvalidPosition),
                        }
                    },
                    LayoutNode::Split { .. } => Err(LayoutError::InvalidPosition),
                }
            },
            LayoutNode::Split { .. } => Err(LayoutError::PanelNotFound),
        }
    }

    /// Where the panel `panel_id` is: the position of the first tab group that
    /// holds it, and its index among the panels of that group. None if and
    /// only if the tree does not hold the panel.
    pub fn find_panel(&self, panel_id: u64) -> (r: Option<(Vec<usize>, usize)>)
        ensures
            match r {
                Some((path, i)) => find_panel(self@, panel_id) == Some((path@, i as int)),
                None => find_panel(self@, panel_id) is None,
            },
            r is Some <==> occurrences(self@, panel_id) > 0,
        decreases self,
    {
        proof {
            lemma_view(self);
            lemma_view_addressable(*self);
            lemma_found_iff_held(self@, panel_id);
        }
        match self {
            LayoutNode::Split { axis, children, weights } => {
                let mut i: usize = 0;
                while i < children.len()
                    invariant
                        *self == (LayoutNode::Split {
                            axis: *axis,
                            children: *children,
                            weights: *weights,
                        }),
                        i <= children.len(),
                        find_in_children(node_views(children@), panel_id, i as nat) is None,
                    decreases children.len() - i,
                {
                    assert(self->children == *children);
                    assert(decreases_to!(self => self->children));
                    assert(decreases_to!(self->children => self->children[i as int]));
                    match children[i].find_panel(panel_id) {
                        Some((mut path, index)) => {
                            let ghost below = path@;
                            path.insert(0, i);
                            proof {
                                let ghost views = node_views(children@);
                                lemma_view(self);
                                lemma_view_addressable(*self);
                                lemma_found_iff_held(self@, panel_id);
                                assert(path@ =~= seq![i] + below);
                                assert(views[i as int] == children[i as int]@);
                                assert(find_panel(views[i as int], panel_id) == Some(
                                    (below, index as int),
                                ));
                                assert(find_in_children(views, panel_id, (i + 1) as nat) == Some(
                                    (seq![i] + below, index as int),
                                ));
                                lemma_find_in_children_stable(
                                    node_views(children@),
                                    panel_id,
                                    (i + 1) as nat,
                                    children.len() as nat,
                                );
                            }
                            return Some((path, index));
                        },
                        None => {},
                    }
                    i = i + 1;
                }
                None
            },
            LayoutNode::Tabs { panels, .. } => match position_of(panels, panel_id) {
                Some(i) => Some((Vec::new(), i)),
                None => None,
            },
        }
    }

    /// Makes the panel `panel_id` the active one of its tab group.
    ///
    /// Fails with `PanelNotFound` where the tree does not hold the panel.
    pub fn activate_panel(&self, panel_id: u64) -> (r: Result<LayoutNode, LayoutError>)
        ensures
            outcome_view(r) == activate_outcome(self@, panel_id),
            self@.wf() ==> (r matches Ok(n) ==> n@.wf()),
    {
        let (path, i) = match self.find_panel(panel_id) {
            Some(found) => found,
            None => {
                return Err(LayoutError::PanelNotFound);
            },
        };
        proof {
            lemma_find_panel(self@, panel_id);
            if self@.wf() {
                lemma_activate_keeps_invariant(self@, panel_id);
            }
        }
        let group = match self.node_at(&path) {
            Some(node) => node,
            None => {
                return Err(LayoutError::PanelNotFound);
            },
        };
        proof {
            lemma_view(group);
        }
        match group {
            LayoutNode::Tabs { panels, .. } => {
                let chosen = LayoutNode::Tabs { panels: duplicate_panels(panels), active: i };
                Ok(self.replace(&path, chosen))
            },
            LayoutNode::Split { .. } => Err(LayoutError::PanelNotFound),
        }
    }

    /// Closes the panel `panel_id`, wherever it is in the tree. A tab group
    /// left without panels is dropped, and a split left with one child gives
    /// way to that child.
    ///
    /// Fails with `PanelNotFound` where the tree does not hold the panel, and
    /// with `NotClosable` where the panel may not be closed or is the last
    /// panel of the tree.
    pub fn close_panel(&self, panel_id: u64) -> (r: Result<LayoutNode, LayoutError>)
        ensures
            outcome_view(r) == close_outcome(self@, panel_id),
            r matches Ok(n) ==> n@.wf(),
    {
        let (path, i) = match self.find_panel(panel_id) {
            Some(found) => found,
            None => {
                return Err(LayoutError::PanelNotFound);
            },
        };
        proof {
            lemma_find_panel(self@, panel_id);
        }
        let group = match self.node_at(&path) {
            Some(node) => node,
            None => {
                return Err(LayoutError::PanelNotFound);
            },
        };
        proof {
            lemma_view(group);
        }
        match group {
            LayoutNode::Tabs { panels, active } => {
                if !panels[i].closable {
                    return Err(LayoutError::NotClosable);
                }
                let rest = LayoutNode::Tabs {
                    panels: panels_without(panels, i),
                    active: if i < *active {
                        *active - 1
                    } else {
                        *active
                    },
                };
                match self.replace(&path, rest).simplify() {
                    Some(n) => Ok(n),
                    None => Err(LayoutError::NotClosable),
                }
            },
            LayoutNode::Split { .. } => Err(LayoutError::PanelNotFound),
        }
    }
}

/// What one step of a change is, as a mathematical value.
pub enum StepView {
    Split { target: Seq<usize>, axis: Axis, panel: PanelView, ratio: Option<(u32, u32)> },
    Resize { position: Seq<usize>, ratios: Seq<u32> },
    MovePanel { panel_id: u64, from: Seq<usize>, to: Seq<usize> },
    ClosePanel { panel_id: u64 },
    Activate { panel_id: u64 },
}

/// One step of a change to the layout. Several steps make up a gesture of
/// the user, such as dragging a panel to a new place.
#[derive(Debug, PartialEq, Eq)]
pub enum LayoutStep {
    Split { target: Vec<usize>, axis: Axis, panel: Panel, ratio: Option<(u32, u32)> },
    Resize { position: Vec<usize>, ratios: Vec<u32> },
    MovePanel { panel_id: u64, from: Vec<usize>, to: Vec<usize> },
    ClosePanel { panel_id: u64 },
    Activate { panel_id: u64 },
}

impl View for LayoutStep {
    type V = StepView;

    open spec fn view(&self) -> StepView {
        match self {
            LayoutStep::Split { target, axis, panel, ratio } => StepView::Split {
                target: target@,
                axis: *axis,
                panel: panel@,
                ratio: *ratio,
            },
            LayoutStep::Resize { position, ratios } => StepView::Resize {
                position: position@,
                ratios: ratios@,
            },
            LayoutStep::MovePanel { panel_id, from, to } => StepView::MovePanel {
                panel_id: *panel_id,
                from: from@,
                to: to@,
            },
            LayoutStep::ClosePanel { panel_id } => StepView::ClosePanel { panel_id: *panel_id },
            LayoutStep::Activate { panel_id } => StepView::Activate { panel_id: *panel_id },
        }
    }
}

/// The views of a sequence of steps, in order.
pub open spec fn step_views(steps: Seq<LayoutStep>) -> Seq<StepView> {
    Seq::new(steps.len(), |i: int| steps[i]@)
}

/// What one step gives.
pub open spec fn step_outcome(t: NodeView, step: StepView) -> Result<NodeView, LayoutError> {
    match step {
        StepView::Split { target, axis, panel, ratio } => split_outcome(
            t,
            target,
            axis,
            panel,
            ratio,
        ),
        StepView::Resize { position, ratios } => resize_outcome(t, position, ratios),
        StepView::MovePanel { panel_id, from, to } => move_outcome(t, panel_id, from, to),
        StepView::ClosePanel { panel_id } => close_outcome(t, panel_id),
        StepView::Activate { panel_id } => activate_outcome(t, panel_id),
    }
}

/// What the first `n` of `steps` give when they are taken one after the
/// other, each on the tree that the one before it gave: the last tree, or the
/// error of the first step that was refused.
pub open spec fn gesture_outcome(t: NodeView, steps: Seq<StepView>, n: nat) -> Result<
    NodeView,
    LayoutError,
>
    decreases n,
{
    if n == 0 || n > steps.len() {
        Ok(t)
    } else {
        match gesture_outcome(t, steps, (n - 1) as nat) {
            Ok(before) => step_outcome(before, steps[n - 1]),
            Err(e) => Err(e),
        }
    }
}

impl LayoutNode {
    /// Takes one step of a change.
    pub fn apply(&self, step: &LayoutStep) -> (r: Result<LayoutNode, LayoutError>)
        ensures
            outcome_view(r) == step_outcome(self@, step@),
            self@.wf() ==> (r matches Ok(n) ==> n@.wf()),
    {
        match step {
            LayoutStep::Split { target, axis, panel, ratio } => self.split(
                target,
                *axis,
                panel.duplicate(),
                *ratio,
            ),
            LayoutStep::Resize { position, ratios } => self.resize(position, ratios),
            LayoutStep::MovePanel { panel_id, from, to } => self.move_panel(*panel_id, from, to),
            LayoutStep::ClosePanel { panel_id } => self.close_panel(*panel_id),
            LayoutStep::Activate { panel_id } => self.activate_panel(*panel_id),
        }
    }

    /// Takes the steps of a gesture one after the other. Where a step is
    /// refused, its error comes back and nothing is left of the steps before
    /// it.
    pub fn apply_all(&self, steps: &Vec<LayoutStep>) -> (r: Result<LayoutNode, LayoutError>)
        ensures
            outcome_view(r) == gesture_outcome(self@, step_views(steps@), steps@.len()),
            self@.wf() ==> (r matches Ok(n) ==> n@.wf()),
    {
        let mut current: LayoutNode = self.duplicate();
        let mut i: usize = 0;
        while i < steps.len()
            invariant
                i <= steps.len(),
                gesture_outcome(self@, step_views(steps@), i as nat) == Ok::<
                    NodeView,
                    LayoutError,
                >(current@),
                self@.wf() ==> current@.wf(),
            decreases steps.len() - i,
        {
            match current.apply(&steps[i]) {
                Ok(next) => {
                    current = next;
                },
                Err(e) => {
                    proof {
                        lemma_gesture_error(self@, step_views(steps@), (i + 1) as nat, steps@.len());
                    }
                    return Err(e);
                },
            }
            i = i + 1;
        }
        Ok(current)
    }
}

/// Once a step of a gesture is refused, the gesture is refused with the
/// error of that step, whatever steps follow.
pub proof fn lemma_gesture_error(t: NodeView, steps: Seq<StepView>, k: nat, n: nat)
    requires
        k <= n <= steps.len(),
        gesture_outcome(t, steps, k) is Err,
    ensures
        gesture_outcome(t, steps, n) == gesture_outcome(t, steps, k),
    decreases n,
{
    if k < n {
        lemma_gesture_error(t, steps, k, (n - 1) as nat);
    }
}

/// Splitting keeps the invariant of the tree.
pub proof fn lemma_split_keeps_invariant(
    t: NodeView,
    target: Seq<usize>,
    axis: Axis,
    panel: PanelView,
    ratio: Option<(u32, u32)>,
)
    requires
        t.wf(),
    ensures
        split_outcome(t, target, axis, panel, ratio) matches Ok(r) ==> r.wf(),
{
    if let Some(existing) = subtree(t, target) {
        lemma_subtree_wf(t, target);
        assert(ratio_pair(ratio).len() == 2);
        lemma_normalized_total(ratio_pair(ratio));
        let group = NodeView::Tabs { panels: seq![panel], active: 0 };
        let children = seq![existing, group];
        let sub = NodeView::Split { axis, children, weights: normalized(ratio_pair(ratio)) };
        assert(children[0].wf());
        assert(children[1].wf());
        assert(sub.wf());
        lemma_with_subtree_wf(t, target, sub);
    }
}

/// Resizing keeps the invariant of the tree.
pub proof fn lemma_resize_keeps_invariant(t: NodeView, position: Seq<usize>, ratios: Seq<u32>)
    requires
        t.wf(),
    ensures
        resize_outcome(t, position, ratios) matches Ok(r) ==> r.wf(),
{
    lemma_subtree_wf(t, position);
    match subtree(t, position) {
        Some(NodeView::Split { axis, children, weights }) => {
            if ratios.len() == children.len() {
                let node = NodeView::Split { axis, children, weights };
                assert(node.wf());
                lemma_normalized_total(ratios);
                let sub = NodeView::Split { axis, children, weights: normalized(ratios) };
                assert(sub.wf());
                lemma_with_subtree_wf(t, position, sub);
            }
        },
        _ => {},
    }
}

/// Whatever the tree was, the tree that a move gives meets the invariant.
pub proof fn lemma_move_keeps_invariant(t: NodeView, id: u64, from: Seq<usize>, to: Seq<usize>)
    ensures
        move_outcome(t, id, from, to) matches Ok(r) ==> r.wf(),
{
    if let Some(NodeView::Tabs { panels, active }) = subtree(t, from) {
        if let Some(i) = panel_position(panels, id, 0) {
            let taken = with_subtree(t, from, without_panel(panels, active, i));
            lemma_groups_stay_in_place(t, from, without_panel(panels, active, i), to);
            if let Some(NodeView::Tabs { panels: others, active: _ }) = subtree(taken, to) {
                let grown = with_panel(others, panels[i]);
                let moved = with_subtree(taken, to, grown);
                lemma_subtree_of_with_subtree(taken, to, grown);
                lemma_simplified_some(moved, to);
                lemma_simplified_wf(moved);
            }
        }
    }
}

/// Whatever the tree was, the tree that closing a panel gives meets the
/// invariant.
pub proof fn lemma_close_keeps_invariant(t: NodeView, id: u64)
    ensures
        close_outcome(t, id) matches Ok(r) ==> r.wf(),
{
    if let Some((path, i)) = find_panel(t, id) {
        let group = subtree(t, path).unwrap();
        lemma_simplified_wf(with_subtree(t, path, without_panel(group->panels, group->active, i)));
    }
}

/// Making a panel active keeps the invariant of the tree.
pub proof fn lemma_activate_keeps_invariant(t: NodeView, id: u64)
    requires
        t.wf(),
    ensures
        activate_outcome(t, id) matches Ok(r) ==> r.wf(),
{
    if let Some((path, i)) = find_panel(t, id) {
        lemma_find_panel(t, id);
        let chosen = NodeView::Tabs { panels: subtree(t, path).unwrap()->panels, active: i as nat };
        lemma_with_subtree_wf(t, path, chosen);
    }
}

/// Every step of a change keeps the invariant of the tree.
pub proof fn lemma_step_keeps_invariant(t: NodeView, step: StepView)
    requires
        t.wf(),
    ensures
        step_outcome(t, step) matches Ok(r) ==> r.wf(),
{
    match step {
        StepView::Split { target, axis, panel, ratio } => {
            lemma_split_keeps_invariant(t, target, axis, panel, ratio);
        },
        StepView::Resize { position, ratios } => {
            lemma_resize_keeps_invariant(t, position, ratios);
        },
        StepView::MovePanel { panel_id, from, to } => {
            lemma_move_keeps_invariant(t, panel_id, from, to);
        },
        StepView::ClosePanel { panel_id } => {
            lemma_close_keeps_invariant(t, panel_id);
        },
        StepView::Activate { panel_id } => {
            lemma_activate_keeps_invariant(t, panel_id);
        },
    }
}

/// After any sequence of splits, resizes, moves and closings the tree meets
/// its invariant: no split has fewer than two children, no tab group is
/// empty, every active index is that of a panel, and the weights of every
/// split add up to [`WEIGHT_TOTAL`].
pub proof fn lemma_gesture_keeps_invariant(t: NodeView, steps: Seq<StepView>, n: nat)
    requires
        t.wf(),
    ensures
        gesture_outcome(t, steps, n) matches Ok(r) ==> r.wf(),
    decreases n,
{
    if n == 0 || n > steps.len() {
    } else {
        lemma_gesture_keeps_invariant(t, steps, (n - 1) as nat);
        if let Ok(before) = gesture_outcome(t, steps, (n - 1) as nat) {
            lemma_step_keeps_invariant(before, steps[n - 1]);
        }
    }
}

} // verus!
