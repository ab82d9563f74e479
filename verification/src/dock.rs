//! The dock area: the owner of the layout tree of one window.

use crate::codec::{decode, decoded, encode, encoded, instantiated};
use crate::codec::{PersistedState, PersistedStateView};
use crate::identity::{
    distinct_ids, lemma_changes_keep_identities_distinct, lemma_decoded_is_distinct,
    lemma_occurrences_simplified, occurrences,
};
use crate::panel::{Axis, Panel, PanelRegistry, RegistryView};
use crate::tree::{
    activate_outcome, close_outcome, gesture_outcome, move_outcome, resize_outcome,
    simplified, split_outcome, step_views, LayoutError, LayoutNode, LayoutStep, NodeView,
    StepView,
};
use vstd::prelude::*;

verus! {

/// What the dock area tells those who listen to it.
#[derive(Clone, Copy, Debug, PartialEq, Eq, Structural)]
pub enum DockEvent {
    /// The layout has changed.
    LayoutChanged,
}

/// Why a stored state was not taken over. The dock area then shows its
/// default layout.
#[derive(Clone, Copy, Debug, PartialEq, Eq, Structural)]
pub enum RestoreError {
    /// The state was stored by a dock area with another name.
    IdMismatch,
    /// The state was stored under another version of the layout scheme.
    UnresolvableVersion,
}

/// What a dock area is, as a mathematical value.
pub struct DockAreaView {
    pub id: Seq<char>,
    pub version: usize,
    pub root: NodeView,
    pub default_root: NodeView,
}

/// The owner of one layout tree. Its tree and its default layout meet the
/// invariant of the layout tree at all times.
pub struct DockArea {
    id: String,
    version: usize,
    root: LayoutNode,
    default_root: LayoutNode,
}

impl View for DockArea {
    type V = DockAreaView;

    closed spec fn view(&self) -> DockAreaView {
        DockAreaView {
            id: self.id@,
            version: self.version,
            root: self.root@,
            default_root: self.default_root@,
        }
    }
}

/// The durable form of a dock area.
pub open spec fn snapshot_of(area: DockAreaView) -> PersistedStateView {
    PersistedStateView { id: area.id, version: area.version, root: encoded(area.root) }
}

/// The dock area once a change with the given outcome has been asked for: it
/// has the new tree where the change was accepted, and is as it was where the
/// change was refused.
pub open spec fn changed(area: DockAreaView, outcome: Result<NodeView, LayoutError>) -> DockAreaView {
    match outcome {
        Ok(root) => DockAreaView { root, ..area },
        Err(_) => area,
    }
}

/// What the dock area answers to a change with the given outcome: one
/// notification where the change was accepted, the error where it was refused.
pub open spec fn announced(outcome: Result<NodeView, LayoutError>) -> Result<DockEvent, LayoutError> {
    match outcome {
        Ok(_) => Ok(DockEvent::LayoutChanged),
        Err(e) => Err(e),
    }
}

/// Whether a stored state is one that the dock area takes over.
pub open spec fn restorable(area: DockAreaView, state: PersistedStateView) -> Result<
    (),
    RestoreError,
> {
    if state.id != area.id {
        Err(RestoreError::IdMismatch)
    } else if state.version != area.version {
        Err(RestoreError::UnresolvableVersion)
    } else {
        Ok(())
    }
}

/// The tree of the dock area once the stored state has been offered to it:
/// the tree that the state is brought back as, or the default layout where
/// the state is not taken over or no panel could be made for it.
pub open spec fn restored_root(
    area: DockAreaView,
    state: PersistedStateView,
    registry: RegistryView,
) -> NodeView {
    if restorable(area, state) is Ok {
        match decoded(registry.templates, state.root, registry.issued) {
            Some(root) => root,
            None => area.default_root,
        }
    } else {
        area.default_root
    }
}

impl DockArea {
    #[verifier::type_invariant]
    spec fn inv(self) -> bool {
        self.root@.wf() && self.default_root@.wf()
    }

    /// A dock area that shows `default_layout`, brought to its simplest form,
    /// and keeps it as its default layout. None where the layout holds no
    /// panel.
    pub fn new(id: String, version: usize, default_layout: LayoutNode) -> (r: Option<DockArea>)
        ensures
            match r {
                Some(area) => {
                    &&& simplified(default_layout@) == Some(area@.root)
                    &&& area@.default_root == area@.root
                    &&& area@.id == id@
                    &&& area@.version == version
                    &&& area@.root.wf()
                    &&& distinct_ids(default_layout@) ==> distinct_ids(area@.root)
                },
                None => simplified(default_layout@) is None,
            },
    {
        proof {
            if let Some(r) = simplified(default_layout@) {
                assert forall|id: u64| #[trigger]
                    occurrences(r, id) == occurrences(default_layout@, id) by {
                    lemma_occurrences_simplified(default_layout@, id);
                }
            }
        }
        match default_layout.simplify() {
            Some(root) => {
                let default_root = root.duplicate();
                Some(DockArea { id, version, root, default_root })
            },
            None => None,
        }
    }

    /// The name of the dock area.
    pub fn id(&self) -> (r: &String)
        ensures
            r@ == self@.id,
    {
        &self.id
    }

    /// The version of the layout scheme.
    pub fn version(&self) -> (r: usize)
        ensures
            r == self@.version,
    {
        self.version
    }

    /// The layout tree, which meets its invariant.
    pub fn root(&self) -> (r: &LayoutNode)
        ensures
            r@ == self@.root,
            r@.wf(),
    {
        proof {
            use_type_invariant(self);
        }
        &self.root
    }

    /// The default layout, which meets the invariant of the layout tree.
    pub fn default_root(&self) -> (r: &LayoutNode)
        ensures
            r@ == self@.default_root,
            r@.wf(),
    {
        proof {
            use_type_invariant(self);
        }
        &self.default_root
    }

    /// Raises the version of the layout scheme. The version never goes down:
    /// a lower one is refused, and `false` comes back.
    pub fn set_version(&mut self, version: usize) -> (raised: bool)
        ensures
            raised == (version >= old(self)@.version),
            raised ==> final(self)@ == (DockAreaView { version, ..old(self)@ }),
            !raised ==> final(self)@ == old(self)@,
    {
        proof {
            use_type_invariant(&*self);
        }
        if version >= self.version {
            self.version = version;
            true
        } else {
            false
        }
    }

    /// The durable form of the dock area as it is now. Nothing is changed, and
    /// the same dock area always gives the same form.
    pub fn dump(&self) -> (r: PersistedState)
        ensures
            r@ == snapshot_of(self@),
    {
        PersistedState { id: self.id.clone(), version: self.version, root: encode(&self.root) }
    }

    /// Takes over a stored state.
    ///
    /// A state stored under another name is refused with `IdMismatch`, one
    /// stored under another version with `UnresolvableVersion`; the dock area
    /// then shows its default layout, and the registry has made no panel. A
    /// state that is taken over is brought back as `decode` says; where no panel
    /// could be made for it, the dock area shows its default layout. Whatever
    /// happens, the tree meets its invariant afterwards.
    pub fn restore(&mut self, state: &PersistedState, registry: &mut PanelRegistry) -> (r: Result<
        (),
        RestoreError,
    >)
        ensures
            r == restorable(old(self)@, state@),
            final(self)@ == (DockAreaView {
                root: restored_root(old(self)@, state@, old(registry)@),
                ..old(self)@
            }),
            final(self)@.root.wf(),
            r is Err ==> final(self)@.root == old(self)@.default_root,
            distinct_ids(old(self)@.default_root) ==> distinct_ids(final(self)@.root),
            final(registry)@.templates == old(registry)@.templates,
            r is Err ==> final(registry)@ == old(registry)@,
            r is Ok ==> final(registry)@.issued == instantiated(
                old(registry)@.templates,
                state@.root,
                old(registry)@.issued,
            ).1,
    {
        proof {
            use_type_invariant(&*self);
            lemma_decoded_is_distinct(registry@.templates, state@.root, registry@.issued);
        }
        if state.id != self.id {
            self.root = self.default_root.duplicate();
            return Err(RestoreError::IdMismatch);
        }
        if state.version != self.version {
            self.root = self.default_root.duplicate();
            return Err(RestoreError::UnresolvableVersion);
        }
        match decode(&state.root, registry) {
            Some(root) => {
                self.root = root;
            },
            None => {
                self.root = self.default_root.duplicate();
            },
        }
        Ok(())
    }

    /// Puts `new_panel` beside the node at `target`, as `LayoutNode::split`
    /// says, and announces the change.
    pub fn split(
        &mut self,
        target: &Vec<usize>,
        axis: Axis,
        new_panel: Panel,
        ratio: Option<(u32, u32)>,
    ) -> (r: Result<DockEvent, LayoutError>)
        ensures
            r == announced(split_outcome(old(self)@.root, target@, axis, new_panel@, ratio)),
            final(self)@ == changed(
                old(self)@,
                split_outcome(old(self)@.root, target@, axis, new_panel@, ratio),
            ),
            final(self)@.root.wf(),
            distinct_ids(old(self)@.root) && occurrences(old(self)@.root, new_panel@.id) == 0
                ==> distinct_ids(final(self)@.root),
    {
        proof {
            use_type_invariant(&*self);
            if distinct_ids(self@.root) && occurrences(self@.root, new_panel@.id) == 0 {
                lemma_changes_keep_identities_distinct(
                    self@.root,
                    StepView::Split { target: target@, axis, panel: new_panel@, ratio },
                );
            }
        }
        match self.root.split(target, axis, new_panel, ratio) {
            Ok(root) => {
                self.root = root;
                Ok(DockEvent::LayoutChanged)
            },
            Err(e) => Err(e),
        }
    }

    /// Gives the children of the split at `position` new sizes, as
    /// `LayoutNode::resize` says, and announces the change.
    pub fn resize(&mut self, position: &Vec<usize>, ratios: &Vec<u32>) -> (r: Result<
        DockEvent,
        LayoutError,
    >)
        ensures
            r == announced(resize_outcome(old(self)@.root, position@, ratios@)),
            final(self)@ == changed(
                old(self)@,
                resize_outcome(old(self)@.root, position@, ratios@),
            ),
            final(self)@.root.wf(),
            distinct_ids(old(self)@.root) ==> distinct_ids(final(self)@.root),
    {
        proof {
            use_type_invariant(&*self);
            if distinct_ids(self@.root) {
                lemma_changes_keep_identities_distinct(
                    self@.root,
                    StepView::Resize { position: position@, ratios: ratios@ },
                );
            }
        }
        match self.root.resize(position, ratios) {
            Ok(root) => {
                self.root = root;
                Ok(DockEvent::LayoutChanged)
            },
            Err(e) => Err(e),
        }
    }

    /// Moves a panel from one tab group to another, as
    /// `LayoutNode::move_panel` says, and announces the change.
    pub fn move_panel(&mut self, panel_id: u64, from: &Vec<usize>, to: &Vec<usize>) -> (r: Result<
        DockEvent,
        LayoutError,
    >)
        ensures
            r == announced(move_outcome(old(self)@.root, panel_id, from@, to@)),
            final(self)@ == changed(
                old(self)@,
                move_outcome(old(self)@.root, panel_id, from@, to@),
            ),
            final(self)@.root.wf(),
            distinct_ids(old(self)@.root) ==> distinct_ids(final(self)@.root),
    {
        proof {
            use_type_invariant(&*self);
            if distinct_ids(self@.root) {
                lemma_changes_keep_identities_distinct(
                    self@.root,
                    StepView::MovePanel { panel_id, from: from@, to: to@ },
                );
            }
        }
        match self.root.move_panel(panel_id, from, to) {
            Ok(root) => {
                self.root = root;
                Ok(DockEvent::LayoutChanged)
            },
            Err(e) => Err(e),
        }
    }

    /// Closes a panel, as `LayoutNode::close_panel` says, and announces the
    /// change.
    pub fn close_panel(&mut self, panel_id: u64) -> (r: Result<DockEvent, LayoutError>)
        ensures
            r == announced(close_outcome(old(self)@.root, panel_id)),
            final(self)@ == changed(old(self)@, close_outcome(old(self)@.root, panel_id)),
            final(self)@.root.wf(),
            distinct_ids(old(self)@.root) ==> distinct_ids(final(self)@.root),
    {
        proof {
            use_type_invariant(&*self);
            if distinct_ids(self@.root) {
                lemma_changes_keep_identities_distinct(
                    self@.root,
                    StepView::ClosePanel { panel_id },
                );
            }
        }
        match self.root.close_panel(panel_id) {
            Ok(root) => {
                self.root = root;
                Ok(DockEvent::LayoutChanged)
            },
            Err(e) => Err(e),
        }
    }

    /// Makes a panel the active one of its tab group, as
    /// `LayoutNode::activate_panel` says, and announces the change.
    pub fn activate_panel(&mut self, panel_id: u64) -> (r: Result<DockEvent, LayoutError>)
        ensures
            r == announced(activate_outcome(old(self)@.root, panel_id)),
            final(self)@ == changed(old(self)@, activate_outcome(old(self)@.root, panel_id)),
            final(self)@.root.wf(),
            distinct_ids(old(self)@.root) ==> distinct_ids(final(self)@.root),
    {
        proof {
            use_type_invariant(&*self);
            if distinct_ids(self@.root) {
                lemma_changes_keep_identities_distinct(
                    self@.root,
                    StepView::Activate { panel_id },
                );
            }
        }
        match self.root.activate_panel(panel_id) {
            Ok(root) => {
                self.root = root;
                Ok(DockEvent::LayoutChanged)
            },
            Err(e) => Err(e),
        }
    }

    /// Takes all steps of one gesture of the user and announces them as one
    /// change. Where a step is refused, none of the steps is taken and the
    /// error of that step comes back.
    pub fn apply_gesture(&mut self, steps: &Vec<LayoutStep>) -> (r: Result<DockEvent, LayoutError>)
        ensures
            r == announced(gesture_outcome(old(self)@.root, step_views(steps@), steps@.len())),
            final(self)@ == changed(
                old(self)@,
                gesture_outcome(old(self)@.root, step_views(steps@), steps@.len()),
            ),
            final(self)@.root.wf(),
    {
        proof {
            use_type_invariant(&*self);
        }
        match self.root.apply_all(steps) {
            Ok(root) => {
                self.root = root;
                Ok(DockEvent::LayoutChanged)
            },
            Err(e) => Err(e),
        }
    }
}

} // verus!
