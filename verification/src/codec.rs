//! The durable form of a layout: what is written to storage and read back.
//!
//! The durable form keeps the shape of the tree, the order and the weights of
//! the children of every split, the active index of every tab group, and of
//! each panel its type. The panels themselves are made anew, by the registry,
//! when a stored layout is brought back.

use crate::panel::{
    issued_after, knows, lemma_template_position, made_panel, panel_views, Axis, Panel,
    PanelRegistry, PanelView, TemplateView,
};
use crate::tree::{
    lemma_simplified_fixed_point, lemma_view, node_views, simplified, view_of, weight_at,
    LayoutNode, NodeView,
};
use vstd::prelude::*;

verus! {

/// What a stored node is, as a mathematical value.
pub enum PersistedNodeView {
    Split { axis: Axis, children: Seq<PersistedNodeView>, weights: Seq<u32> },
    Tabs { panels: Seq<Seq<char>>, active: nat },
}

/// A child of a stored split, with its size weight.
#[derive(Debug, PartialEq, Eq)]
pub struct PersistedChild {
    pub node: PersistedNode,
    pub weight: u32,
}

/// A node of a stored layout. A tab group holds the types of its panels.
#[derive(Debug, PartialEq, Eq)]
pub enum PersistedNode {
    Split { axis: Axis, children: Vec<PersistedChild> },
    Tabs { panels: Vec<String>, active: usize },
}

/// The views of a sequence of strings, in order.
pub open spec fn string_views(strings: Seq<String>) -> Seq<Seq<char>> {
    Seq::new(strings.len(), |i: int| strings[i]@)
}

/// The view of a stored node.
pub open spec fn persisted_view(node: PersistedNode) -> PersistedNodeView
    decreases node, 0nat,
{
    match node {
        PersistedNode::Split { axis, children } => PersistedNodeView::Split {
            axis,
            children: persisted_child_views(children@, children@.len()),
            weights: persisted_weights(children@),
        },
        PersistedNode::Tabs { panels, active } => PersistedNodeView::Tabs {
            panels: string_views(panels@),
            active: active as nat,
        },
    }
}

/// The views of the nodes of the first `n` of `children`.
pub open spec fn persisted_child_views(children: Seq<PersistedChild>, n: nat) -> Seq<
    PersistedNodeView,
>
    decreases children, n,
{
    if n == 0 || n > children.len() {
        Seq::empty()
    } else {
        persisted_child_views(children, (n - 1) as nat).push(persisted_view(children[n - 1].node))
    }
}

/// The weights of `children`, in order.
pub open spec fn persisted_weights(children: Seq<PersistedChild>) -> Seq<u32> {
    Seq::new(children.len(), |i: int| children[i].weight)
}

/// The views of the nodes of `children`, in order.
pub open spec fn persisted_views(children: Seq<PersistedChild>) -> Seq<PersistedNodeView> {
    Seq::new(children.len(), |i: int| children[i].node@)
}

impl View for PersistedNode {
    type V = PersistedNodeView;

    open spec fn view(&self) -> PersistedNodeView {
        persisted_view(*self)
    }
}

/// The views of the first `n` children are the first `n` of their views.
pub proof fn lemma_persisted_child_views(children: Seq<PersistedChild>, n: nat)
    requires
        n <= children.len(),
    ensures
        persisted_child_views(children, n) == persisted_views(children).take(n as int),
    decreases n,
{
    if n > 0 {
        lemma_persisted_child_views(children, (n - 1) as nat);
    }
    assert(persisted_child_views(children, n) =~= persisted_views(children).take(n as int));
}

/// The view of a stored split is the split of the views of its children.
pub proof fn lemma_persisted_view(node: &PersistedNode)
    ensures
        match *node {
            PersistedNode::Split { axis, children } => node@ == (PersistedNodeView::Split {
                axis,
                children: persisted_views(children@),
                weights: persisted_weights(children@),
            }),
            PersistedNode::Tabs { panels, active } => node@ == (PersistedNodeView::Tabs {
                panels: string_views(panels@),
                active: active as nat,
            }),
        },
{
    match *node {
        PersistedNode::Split { axis, children } => {
            lemma_persisted_child_views(children@, children@.len());
            assert(persisted_views(children@).take(children@.len() as int) =~= persisted_views(
                children@,
            ));
        },
        PersistedNode::Tabs { .. } => {},
    }
}

/// The types of `panels`, in order.
pub open spec fn type_ids(panels: Seq<PanelView>) -> Seq<Seq<char>> {
    Seq::new(panels.len(), |i: int| panels[i].type_id)
}

/// One weight for each of `n` children: the weight that the child has, zero
/// where it has none.
pub open spec fn padded_weights(weights: Seq<u32>, n: nat) -> Seq<u32> {
    Seq::new(n, |i: int| weight_at(weights, i))
}

/// The durable form of the tree `t`.
pub open spec fn encoded(t: NodeView) -> PersistedNodeView
    decreases t, 0nat,
{
    match t {
        NodeView::Split { axis, children, weights } => PersistedNodeView::Split {
            axis,
            children: encoded_children(children, children.len()),
            weights: padded_weights(weights, children.len()),
        },
        NodeView::Tabs { panels, active } => PersistedNodeView::Tabs {
            panels: type_ids(panels),
            active,
        },
    }
}

/// The durable forms of the first `n` of `children`.
pub open spec fn encoded_children(children: Seq<NodeView>, n: nat) -> Seq<PersistedNodeView>
    decreases children, n,
{
    if n == 0 || n > children.len() {
        Seq::empty()
    } else {
        encoded_children(children, (n - 1) as nat).push(encoded(children[n - 1]))
    }
}

/// The durable forms of `nodes`, in order.
pub open spec fn encoded_nodes(nodes: Seq<NodeView>) -> Seq<PersistedNodeView> {
    Seq::new(nodes.len(), |i: int| encoded(nodes[i]))
}

/// The durable forms of the first `n` children are the first `n` of their
/// durable forms: encoding keeps the order of the children.
pub proof fn lemma_encoded_children(children: Seq<NodeView>, n: nat)
    requires
        n <= children.len(),
    ensures
        encoded_children(children, n) == encoded_nodes(children).take(n as int),
    decreases n,
{
    if n > 0 {
        lemma_encoded_children(children, (n - 1) as nat);
    }
    assert(encoded_children(children, n) =~= encoded_nodes(children).take(n as int));
}

/// The durable form of a split holds the durable forms of its children, in
/// their order.
pub proof fn lemma_encoded_split(t: NodeView)
    requires
        t is Split,
    ensures
        encoded(t) == (PersistedNodeView::Split {
            axis: t->axis,
            children: encoded_nodes(t->children),
            weights: padded_weights(t->weights, t->children.len()),
        }),
{
    lemma_encoded_children(t->children, t->children.len());
    assert(encoded_nodes(t->children).take(t->children.len() as int) =~= encoded_nodes(
        t->children,
    ));
}

/// The types of `panels`, in order.
fn type_ids_of(panels: &Vec<Panel>) -> (r: Vec<String>)
    ensures
        string_views(r@) == type_ids(panel_views(panels@)),
{
    let mut out: Vec<String> = Vec::new();
    let mut i: usize = 0;
    while i < panels.len()
        invariant
            i <= panels.len(),
            out.len() == i,
            forall|k: int| 0 <= k < i ==> out[k]@ == panels[k]@.type_id,
        decreases panels.len() - i,
    {
        out.push(panels[i].type_id.clone());
        i = i + 1;
    }
    assert(string_views(out@) =~= type_ids(panel_views(panels@)));
    out
}

/// The durable form of the tree `node`.
pub fn encode(node: &LayoutNode) -> (r: PersistedNode)
    ensures
        r@ == encoded(node@),
    decreases node,
{
    proof {
        lemma_view(node);
    }
    match node {
        LayoutNode::Split { axis, children, weights } => {
            let mut out: Vec<PersistedChild> = Vec::new();
            let mut i: usize = 0;
            while i < children.len()
                invariant
                    *node == (LayoutNode::Split {
                        axis: *axis,
                        children: *children,
                        weights: *weights,
                    }),
                    i <= children.len(),
                    out.len() == i,
                    forall|k: int|
                        0 <= k < i ==> (#[trigger] out[k]).node@ == encoded(children[k]@)
                            && out[k].weight == weight_at(weights@, k),
                decreases children.len() - i,
            {
                assert(node->children == *children);
                assert(decreases_to!(node => node->children));
                assert(decreases_to!(node->children => node->children[i as int]));
                let weight: u32 = if i < weights.len() {
                    weights[i]
                } else {
                    0
                };
                out.push(PersistedChild { node: encode(&children[i]), weight });
                i = i + 1;
            }
            let r = PersistedNode::Split { axis: *axis, children: out };
            proof {
                lemma_persisted_view(&r);
                lemma_encoded_split(node@);
                assert(persisted_views(out@) =~= encoded_nodes(node_views(children@)));
                assert(persisted_weights(out@) =~= padded_weights(
                    weights@,
                    children@.len(),
                ));
            }
            r
        },
        LayoutNode::Tabs { panels, active } => PersistedNode::Tabs {
            panels: type_ids_of(panels),
            active: *active,
        },
    }
}

/// A copy of `strings`.
fn duplicate_strings(strings: &Vec<String>) -> (r: Vec<String>)
    ensures
        string_views(r@) == string_views(strings@),
{
    let mut out: Vec<String> = Vec::new();
    let mut i: usize = 0;
    while i < strings.len()
        invariant
            i <= strings.len(),
            out.len() == i,
            forall|k: int| 0 <= k < i ==> out[k]@ == strings[k]@,
        decreases strings.len() - i,
    {
        out.push(strings[i].clone());
        i = i + 1;
    }
    assert(string_views(out@) =~= string_views(strings@));
    out
}

impl PersistedNode {
    /// A copy of the stored layout.
    pub fn duplicate(&self) -> (r: PersistedNode)
        ensures
            r@ == self@,
        decreases self,
    {
        proof {
            lemma_persisted_view(self);
        }
        match self {
            PersistedNode::Split { axis, children } => {
                let mut out: Vec<PersistedChild> = Vec::new();
                let mut i: usize = 0;
                while i < children.len()
                    invariant
                        *self == (PersistedNode::Split { axis: *axis, children: *children }),
                        i <= children.len(),
                        out.len() == i,
                        forall|k: int|
                            0 <= k < i ==> (#[trigger] out[k]).node@ == children[k].node@
                                && out[k].weight == children[k].weight,
                    decreases children.len() - i,
                {
                    assert(self->children == *children);
                    assert(decreases_to!(self => self->children));
                    assert(decreases_to!(self->children => self->children[i as int]));
                    assert(decreases_to!(self->children[i as int] => self->children[i as int].node));
                    out.push(
                        PersistedChild {
                            node: children[i].node.duplicate(),
                            weight: children[i].weight,
                        },
                    );
                    i = i + 1;
                }
                let r = PersistedNode::Split { axis: *axis, children: out };
                proof {
                    lemma_persisted_view(&r);
                    assert(persisted_views(out@) =~= persisted_views(children@));
                    assert(persisted_weights(out@) =~= persisted_weights(children@));
                }
                r
            },
            PersistedNode::Tabs { panels, active } => PersistedNode::Tabs {
                panels: duplicate_strings(panels),
                active: *active,
            },
        }
    }

    /// Whether the two stored layouts are the same: the same shape, the same
    /// weights, the same active indices and the same panel types, in the same
    /// order.
    pub fn same_as(&self, other: &PersistedNode) -> (r: bool)
        ensures
            r == (self@ == other@),
        decreases self,
    {
        proof {
            lemma_persisted_view(self);
            lemma_persisted_view(other);
        }
        match self {
            PersistedNode::Split { axis, children } => match other {
                PersistedNode::Split { axis: other_axis, children: other_children } => {
                    if *axis != *other_axis || children.len() != other_children.len() {
                        assert(persisted_views(children@).len() != persisted_views(
                            other_children@,
                        ).len() || *axis != *other_axis);
                        return false;
                    }
                    let mut i: usize = 0;
                    while i < children.len()
                        invariant
                            *self == (PersistedNode::Split { axis: *axis, children: *children }),
                            i <= children.len(),
                            children.len() == other_children.len(),
                            forall|k: int|
                                0 <= k < i ==> (#[trigger] children[k]).node@
                                    == other_children[k].node@ && children[k].weight
                                    == other_children[k].weight,
                            self@ == (PersistedNodeView::Split {
                                axis: *axis,
                                children: persisted_views(children@),
                                weights: persisted_weights(children@),
                            }),
                            other@ == (PersistedNodeView::Split {
                                axis: *other_axis,
                                children: persisted_views(other_children@),
                                weights: persisted_weights(other_children@),
                            }),
                        decreases children.len() - i,
                    {
                        assert(self->children == *children);
                        assert(decreases_to!(self => self->children));
                        assert(decreases_to!(self->children => self->children[i as int]));
                        assert(decreases_to!(self->children[i as int] => self->children[i as int].node));
                        if children[i].weight != other_children[i].weight {
                            assert(persisted_weights(children@)[i as int] != persisted_weights(
                                other_children@,
                            )[i as int]);
                            return false;
                        }
                        if !children[i].node.same_as(&other_children[i].node) {
                            assert(persisted_views(children@)[i as int] != persisted_views(
                                other_children@,
                            )[i as int]);
                            return false;
                        }
                        i = i + 1;
                    }
                    assert(persisted_views(children@) =~= persisted_views(other_children@));
                    assert(persisted_weights(children@) =~= persisted_weights(other_children@));
                    true
                },
                PersistedNode::Tabs { .. } => false,
            },
            PersistedNode::Tabs { panels, active } => match other {
                PersistedNode::Tabs { panels: other_panels, active: other_active } => {
                    if *active != *other_active || panels.len() != other_panels.len() {
                        assert(string_views(panels@).len() != string_views(other_panels@).len()
                            || *active != *other_active);
                        return false;
                    }
                    let mut i: usize = 0;
                    while i < panels.len()
                        invariant
                            i <= panels.len(),
                            panels.len() == other_panels.len(),
                            forall|k: int| 0 <= k < i ==> panels[k]@ == other_panels[k]@,
                            self@ == (PersistedNodeView::Tabs {
                                panels: string_views(panels@),
                                active: *active as nat,
                            }),
                            other@ == (PersistedNodeView::Tabs {
                                panels: string_views(other_panels@),
                                active: *other_active as nat,
                            }),
                        decreases panels.len() - i,
                    {
                        if panels[i] != other_panels[i] {
                            assert(string_views(panels@)[i as int] != string_views(
                                other_panels@,
                            )[i as int]);
                            return false;
                        }
                        i = i + 1;
                    }
                    assert(string_views(panels@) =~= string_views(other_panels@));
                    true
                },
                PersistedNode::Split { .. } => false,
            },
        }
    }
}

/// The panels that the registry makes for the first `n` of `names`, in order,
/// and the number of panels that it has handed out after that. A name for
/// which the registry makes no panel is passed over.
pub open spec fn made_panels(
    templates: Seq<TemplateView>,
    names: Seq<Seq<char>>,
    issued: u64,
    n: nat,
) -> (Seq<PanelView>, u64)
    decreases n,
{
    if n == 0 || n > names.len() {
        (Seq::empty(), issued)
    } else {
        let rest = made_panels(templates, names, issued, (n - 1) as nat);
        match made_panel(templates, rest.1, names[n - 1]) {
            Some(panel) => (rest.0.push(panel), issued_after(templates, rest.1, names[n - 1])),
            None => rest,
        }
    }
}

/// The tree that a stored layout stands for, before it is brought to its
/// simplest form, and the number of panels that the registry has handed out
/// once the tree is made. The panels are made in the order in which the
/// stored layout names them. The active index of a tab group counts the
/// panels that were made for the names before the stored active index.
pub open spec fn instantiated(templates: Seq<TemplateView>, stored: PersistedNodeView, issued: u64) -> (
    NodeView,
    u64,
)
    decreases stored, 0nat,
{
    match stored {
        PersistedNodeView::Split { axis, children, weights } => {
            let made = instantiated_children(templates, children, issued, children.len());
            (NodeView::Split { axis, children: made.0, weights }, made.1)
        },
        PersistedNodeView::Tabs { panels, active } => {
            let made = made_panels(templates, panels, issued, panels.len());
            (
                NodeView::Tabs {
                    panels: made.0,
                    active: made_panels(templates, panels, issued, active).0.len(),
                },
                made.1,
            )
        },
    }
}

/// The trees that the first `n` of the stored `children` stand for.
pub open spec fn instantiated_children(
    templates: Seq<TemplateView>,
    children: Seq<PersistedNodeView>,
    issued: u64,
    n: nat,
) -> (Seq<NodeView>, u64)
    decreases children, n,
{
    if n == 0 || n > children.len() {
        (Seq::empty(), issued)
    } else {
        let rest = instantiated_children(templates, children, issued, (n - 1) as nat);
        let child = instantiated(templates, children[n - 1], rest.1);
        (rest.0.push(child.0), child.1)
    }
}

/// The tree that a stored layout is brought back as: the tree that it stands
/// for, in its simplest form. None where no panel could be made.
pub open spec fn decoded(templates: Seq<TemplateView>, stored: PersistedNodeView, issued: u64) -> Option<
    NodeView,
> {
    simplified(instantiated(templates, stored, issued).0)
}

/// The number of panels in the tree.
pub open spec fn panel_count(t: NodeView) -> nat
    decreases t, 0nat,
{
    match t {
        NodeView::Split { children, .. } => panel_count_children(children, children.len()),
        NodeView::Tabs { panels, .. } => panels.len(),
    }
}

/// The number of panels in the first `n` of `children`.
pub open spec fn panel_count_children(children: Seq<NodeView>, n: nat) -> nat
    decreases children, n,
{
    if n == 0 || n > children.len() {
        0
    } else {
        panel_count_children(children, (n - 1) as nat) + panel_count(children[n - 1])
    }
}

/// Whether the registry knows the type of every panel of the tree.
pub open spec fn all_known(t: NodeView, templates: Seq<TemplateView>) -> bool
    decreases t,
{
    match t {
        NodeView::Split { children, .. } => forall|i: int|
            0 <= i < children.len() ==> all_known(#[trigger] children[i], templates),
        NodeView::Tabs { panels, .. } => forall|i: int|
            0 <= i < panels.len() ==> knows(templates, #[trigger] panels[i].type_id),
    }
}

/// Where the registry knows every name and has identities left for all of
/// them, it makes one panel for each, of the type named, with identities that
/// follow each other.
pub proof fn lemma_made_panels_all(
    templates: Seq<TemplateView>,
    names: Seq<Seq<char>>,
    issued: u64,
    n: nat,
)
    requires
        n <= names.len(),
        forall|i: int| 0 <= i < names.len() ==> knows(templates, #[trigger] names[i]),
        issued + n <= u64::MAX,
    ensures
        made_panels(templates, names, issued, n).0.len() == n,
        made_panels(templates, names, issued, n).1 == issued + n,
        forall|i: int|
            0 <= i < n ==> (#[trigger] made_panels(templates, names, issued, n).0[i]).type_id
                == names[i] && made_panels(templates, names, issued, n).0[i].id == issued + i,
    decreases n,
{
    if n > 0 {
        lemma_made_panels_all(templates, names, issued, (n - 1) as nat);
        assert(knows(templates, names[n - 1]));
        lemma_template_position(templates, names[n - 1], 0);
    }
}

/// Encoding a valid tree and instantiating what comes out gives a valid tree
/// with the same durable form, and uses one identity for each panel.
pub proof fn lemma_round_trip_node(t: NodeView, templates: Seq<TemplateView>, issued: u64)
    requires
        t.wf(),
        all_known(t, templates),
        issued + panel_count(t) <= u64::MAX,
    ensures
        encoded(instantiated(templates, encoded(t), issued).0) == encoded(t),
        instantiated(templates, encoded(t), issued).0.wf(),
        instantiated(templates, encoded(t), issued).1 == issued + panel_count(t),
    decreases t, 0nat,
{
    match t {
        NodeView::Split { axis, children, weights } => {
            lemma_encoded_split(t);
            let n = children.len();
            lemma_round_trip_children(children, templates, issued, n);
            let made = instantiated_children(templates, encoded_nodes(children), issued, n);
            let back = instantiated(templates, encoded(t), issued).0;
            assert(padded_weights(weights, n) =~= weights);
            assert(back == (NodeView::Split { axis, children: made.0, weights }));
            lemma_encoded_split(back);
            assert(encoded_nodes(made.0) =~= encoded_nodes(children));
        },
        NodeView::Tabs { panels, active } => {
            let names = type_ids(panels);
            lemma_made_panels_all(templates, names, issued, panels.len());
            lemma_made_panels_all(templates, names, issued, active);
            let made = made_panels(templates, names, issued, panels.len());
            assert(type_ids(made.0) =~= names);
        },
    }
}

/// The same, for the first `n` children of a split.
pub proof fn lemma_round_trip_children(
    children: Seq<NodeView>,
    templates: Seq<TemplateView>,
    issued: u64,
    n: nat,
)
    requires
        n <= children.len(),
        forall|i: int| 0 <= i < children.len() ==> (#[trigger] children[i]).wf(),
        forall|i: int| 0 <= i < children.len() ==> all_known(#[trigger] children[i], templates),
        issued + panel_count_children(children, n) <= u64::MAX,
    ensures
        instantiated_children(templates, encoded_nodes(children), issued, n).0.len() == n,
        instantiated_children(templates, encoded_nodes(children), issued, n).1 == issued
            + panel_count_children(children, n),
        forall|i: int|
            0 <= i < n ==> (#[trigger] instantiated_children(
                templates,
                encoded_nodes(children),
                issued,
                n,
            ).0[i]).wf() && encoded(
                instantiated_children(templates, encoded_nodes(children), issued, n).0[i],
            ) == encoded(children[i]),
    decreases children, n,
{
    if n > 0 {
        lemma_round_trip_children(children, templates, issued, (n - 1) as nat);
        let rest = instantiated_children(templates, encoded_nodes(children), issued, (n - 1) as nat);
        lemma_round_trip_node(children[n - 1], templates, rest.1);
    }
}

/// A valid tree survives being stored and brought back: where the registry
/// knows the type of every panel and has identities left for all of them, the
/// tree that comes back is valid and has the same durable form, that is the
/// same shape, the same weights, the same active indices and the same panel
/// types, in the same order.
pub proof fn lemma_round_trip(t: NodeView, templates: Seq<TemplateView>, issued: u64)
    requires
        t.wf(),
        all_known(t, templates),
        issued + panel_count(t) <= u64::MAX,
    ensures
        decoded(templates, encoded(t), issued) matches Some(back) && back.wf() && encoded(back)
            == encoded(t),
{
    lemma_round_trip_node(t, templates, issued);
    lemma_simplified_fixed_point(instantiated(templates, encoded(t), issued).0);
}

/// Makes a panel for each of `names` that the registry makes one for, and
/// says where the panel at `active` has gone.
fn make_panels(names: &Vec<String>, active: usize, registry: &mut PanelRegistry) -> (r: (
    Vec<Panel>,
    usize,
))
    ensures
        panel_views(r.0@) == made_panels(
            old(registry)@.templates,
            string_views(names@),
            old(registry)@.issued,
            names@.len(),
        ).0,
        r.1 == made_panels(
            old(registry)@.templates,
            string_views(names@),
            old(registry)@.issued,
            active as nat,
        ).0.len(),
        final(registry)@.issued == made_panels(
            old(registry)@.templates,
            string_views(names@),
            old(registry)@.issued,
            names@.len(),
        ).1,
        final(registry)@.templates == old(registry)@.templates,
{
    let ghost templates = registry@.templates;
    let ghost start = registry@.issued;
    let ghost all = string_views(names@);
    let mut out: Vec<Panel> = Vec::new();
    let mut place: usize = 0;
    let mut i: usize = 0;
    assert(panel_views(out@) =~= Seq::empty());
    while i < names.len()
        invariant
            i <= names.len(),
            all == string_views(names@),
            registry@.templates == templates,
            panel_views(out@) == made_panels(templates, all, start, i as nat).0,
            registry@.issued == made_panels(templates, all, start, i as nat).1,
            place == (if active <= i {
                made_panels(templates, all, start, active as nat).0.len()
            } else {
                0
            }),
        decreases names.len() - i,
    {
        let ghost before = panel_views(out@);
        match registry.create(&names[i]) {
            Some(panel) => {
                out.push(panel);
                assert(panel_views(out@) =~= before.push(panel@));
            },
            None => {},
        }
        i = i + 1;
        if i == active {
            place = out.len();
        }
    }
    (out, place)
}

/// The tree that the stored layout stands for, with panels made by the
/// registry.
fn instantiate(stored: &PersistedNode, registry: &mut PanelRegistry) -> (r: LayoutNode)
    ensures
        r@ == instantiated(old(registry)@.templates, stored@, old(registry)@.issued).0,
        final(registry)@.issued == instantiated(
            old(registry)@.templates,
            stored@,
            old(registry)@.issued,
        ).1,
        final(registry)@.templates == old(registry)@.templates,
    decreases stored,
{
    proof {
        lemma_persisted_view(stored);
    }
    match stored {
        PersistedNode::Split { axis, children } => {
            let ghost templates = registry@.templates;
            let ghost start = registry@.issued;
            let ghost all = persisted_views(children@);
            let mut out: Vec<LayoutNode> = Vec::new();
            let mut weights: Vec<u32> = Vec::new();
            let mut i: usize = 0;
            assert(node_views(out@) =~= Seq::empty());
            while i < children.len()
                invariant
                    *stored == (PersistedNode::Split { axis: *axis, children: *children }),
                    i <= children.len(),
                    all == persisted_views(children@),
                    registry@.templates == templates,
                    node_views(out@) == instantiated_children(templates, all, start, i as nat).0,
                    registry@.issued == instantiated_children(templates, all, start, i as nat).1,
                    weights.len() == i,
                    forall|k: int| 0 <= k < i ==> weights[k] == children[k].weight,
                decreases children.len() - i,
            {
                assert(stored->children == *children);
                assert(decreases_to!(stored => stored->children));
                assert(decreases_to!(stored->children => stored->children[i as int]));
                assert(decreases_to!(stored->children[i as int] => stored->children[i as int].node));
                let ghost before = node_views(out@);
                let child = instantiate(&children[i].node, registry);
                out.push(child);
                weights.push(children[i].weight);
                assert(node_views(out@) =~= before.push(child@));
                i = i + 1;
            }
            assert(weights@ =~= persisted_weights(children@));
            let r = LayoutNode::Split { axis: *axis, children: out, weights };
            proof {
                lemma_view(&r);
            }
            r
        },
        PersistedNode::Tabs { panels, active } => {
            let (made, place) = make_panels(panels, *active, registry);
            LayoutNode::Tabs { panels: made, active: place }
        },
    }
}

/// Brings a stored layout back as a tree.
///
/// The registry makes a new panel for each panel type that the stored layout
/// names; a type for which it makes none is passed over. The tree is then
/// brought to its simplest form, so that it meets the invariant whatever was
/// stored. None comes back where no panel could be made.
pub fn decode(stored: &PersistedNode, registry: &mut PanelRegistry) -> (r: Option<LayoutNode>)
    ensures
        view_of(r) == decoded(old(registry)@.templates, stored@, old(registry)@.issued),
        r matches Some(n) ==> n@.wf(),
        final(registry)@.templates == old(registry)@.templates,
        final(registry)@.issued == instantiated(
            old(registry)@.templates,
            stored@,
            old(registry)@.issued,
        ).1,
{
    instantiate(stored, registry).simplify()
}

/// What a stored layout state is, as a mathematical value.
pub struct PersistedStateView {
    pub id: Seq<char>,
    pub version: usize,
    pub root: PersistedNodeView,
}

/// The durable form of a dock area: its name, the version of its layout
/// scheme, and its tree.
#[derive(Debug, PartialEq, Eq)]
pub struct PersistedState {
    pub id: String,
    pub version: usize,
    pub root: PersistedNode,
}

impl View for PersistedState {
    type V = PersistedStateView;

    open spec fn view(&self) -> PersistedStateView {
        PersistedStateView { id: self.id@, version: self.version, root: self.root@ }
    }
}

impl PersistedState {
    /// A copy of the state.
    pub fn duplicate(&self) -> (r: PersistedState)
        ensures
            r@ == self@,
    {
        PersistedState {
            id: self.id.clone(),
            version: self.version,
            root: self.root.duplicate(),
        }
    }

    /// Whether the two states are the same: the same name, the same version
    /// and the same stored tree.
    pub fn same_as(&self, other: &PersistedState) -> (r: bool)
        ensures
            r == (self@ == other@),
    {
        self.id == other.id && self.version == other.version && self.root.same_as(&other.root)
    }
}

/// Those of the first `n` of `names` that the registry does not know, in
/// order.
pub open spec fn unknown_names(templates: Seq<TemplateView>, names: Seq<Seq<char>>, n: nat) -> Seq<
    Seq<char>,
>
    decreases n,
{
    if n == 0 || n > names.len() {
        Seq::empty()
    } else {
        let rest = unknown_names(templates, names, (n - 1) as nat);
        if knows(templates, names[n - 1]) {
            rest
        } else {
            rest.push(names[n - 1])
        }
    }
}

/// The panel types that a stored layout names and the registry does not
/// know, in the order in which the layout names them, each as often as it is
/// named. These are the panels that are passed over when the layout is
/// brought back.
pub open spec fn unknown_types(templates: Seq<TemplateView>, stored: PersistedNodeView) -> Seq<
    Seq<char>,
>
    decreases stored, 0nat,
{
    match stored {
        PersistedNodeView::Split { children, .. } => unknown_types_in(
            templates,
            children,
            children.len(),
        ),
        PersistedNodeView::Tabs { panels, .. } => unknown_names(templates, panels, panels.len()),
    }
}

/// The unknown panel types of the first `n` of `children`.
pub open spec fn unknown_types_in(
    templates: Seq<TemplateView>,
    children: Seq<PersistedNodeView>,
    n: nat,
) -> Seq<Seq<char>>
    decreases children, n,
{
    if n == 0 || n > children.len() {
        Seq::empty()
    } else {
        unknown_types_in(templates, children, (n - 1) as nat) + unknown_types(
            templates,
            children[n - 1],
        )
    }
}

/// Adds the unknown panel types of `stored` behind `out`.
fn collect_unresolved(stored: &PersistedNode, registry: &PanelRegistry, out: &mut Vec<String>)
    ensures
        string_views(final(out)@) == string_views(old(out)@) + unknown_types(
            registry@.templates,
            stored@,
        ),
    decreases stored,
{
    proof {
        lemma_persisted_view(stored);
    }
    let ghost start = string_views(out@);
    let ghost templates = registry@.templates;
    match stored {
        PersistedNode::Split { axis, children } => {
            let ghost all = persisted_views(children@);
            let mut i: usize = 0;
            assert(string_views(out@) =~= start + Seq::<Seq<char>>::empty());
            while i < children.len()
                invariant
                    *stored == (PersistedNode::Split { axis: *axis, children: *children }),
                    i <= children.len(),
                    all == persisted_views(children@),
                    templates == registry@.templates,
                    string_views(out@) == start + unknown_types_in(templates, all, i as nat),
                decreases children.len() - i,
            {
                assert(stored->children == *children);
                assert(decreases_to!(stored => stored->children));
                assert(decreases_to!(stored->children => stored->children[i as int]));
                assert(decreases_to!(stored->children[i as int] => stored->children[i as int].node));
                collect_unresolved(&children[i].node, registry, out);
                assert(string_views(out@) =~= start + unknown_types_in(
                    templates,
                    all,
                    (i + 1) as nat,
                ));
                i = i + 1;
            }
        },
        PersistedNode::Tabs { panels, .. } => {
            let ghost names = string_views(panels@);
            let mut i: usize = 0;
            assert(string_views(out@) =~= start + Seq::<Seq<char>>::empty());
            while i < panels.len()
                invariant
                    i <= panels.len(),
                    names == string_views(panels@),
                    templates == registry@.templates,
                    string_views(out@) == start + unknown_names(templates, names, i as nat),
                decreases panels.len() - i,
            {
                if registry.resolve(&panels[i]).is_none() {
                    let ghost before = string_views(out@);
                    out.push(panels[i].clone());
                    assert(string_views(out@) =~= before.push(names[i as int]));
                }
                assert(string_views(out@) =~= start + unknown_names(
                    templates,
                    names,
                    (i + 1) as nat,
                ));
                i = i + 1;
            }
        },
    }
}

/// The panel types that `stored` names and `registry` does not know: what
/// `decode` will pass over, to be told to the user.
pub fn unresolved_types(stored: &PersistedNode, registry: &PanelRegistry) -> (r: Vec<String>)
    ensures
        string_views(r@) == unknown_types(registry@.templates, stored@),
{
    let mut out: Vec<String> = Vec::new();
    collect_unresolved(stored, registry, &mut out);
    assert(string_views(out@) =~= unknown_types(registry@.templates, stored@));
    out
}

} // verus!
