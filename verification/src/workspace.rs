//! The workspace of the application: its two kinds of panel, its dock area
//! with the default layout, and the scheduler that saves the layout.

use crate::codec::{string_views, unknown_types, unresolved_types, PersistedState};
use crate::dock::{changed, restorable, restored_root, snapshot_of};
use crate::dock::{DockArea, DockAreaView, RestoreError};
use crate::panel::{issued_after, made_panel, panel_views, template_position};
use crate::panel::{Panel, PanelRegistry, PanelTemplate, PanelView, RegistryView, TemplateView};
use crate::scheduler::{after_change, after_expiry, after_shutdown, after_write, idle_scheduler};
use crate::scheduler::{Scheduler, SchedulerAction, SchedulerView};
use crate::tree::{gesture_outcome, lemma_view, step_views};
use crate::tree::{LayoutError, LayoutNode, LayoutStep, NodeView};
use vstd::prelude::*;

verus! {

/// The version of the layout scheme of the main dock area.
pub const MAIN_DOCK_VERSION: usize = 1;

/// The name of the main dock area.
pub open spec fn main_dock_id() -> Seq<char> {
    "main-dock"@
}

/// The kind of the main panel: it cannot be closed.
pub open spec fn main_template() -> TemplateView {
    TemplateView { type_id: "MainPanel"@, title: "Main"@, closable: false, zoom: None }
}

/// The kind of the second panel: it can be closed.
pub open spec fn second_template() -> TemplateView {
    TemplateView { type_id: "SecondPanel"@, title: "Second Tab"@, closable: true, zoom: None }
}

/// The panel of the kind `template` with the identity `id`.
pub open spec fn panel_of(template: TemplateView, id: u64) -> PanelView {
    PanelView {
        id,
        type_id: template.type_id,
        title: template.title,
        closable: template.closable,
        zoom: template.zoom,
    }
}

/// The default layout: one tab group with the main panel, which is active,
/// and the second panel behind it.
pub open spec fn default_layout() -> NodeView {
    NodeView::Tabs {
        panels: seq![panel_of(main_template(), 0), panel_of(second_template(), 1)],
        active: 0,
    }
}

/// The kind of the main panel.
pub fn main_panel_template() -> (r: PanelTemplate)
    ensures
        r@ == main_template(),
{
    PanelTemplate {
        type_id: "MainPanel".to_owned(),
        title: "Main".to_owned(),
        closable: false,
        zoom: None,
    }
}

/// The kind of the second panel.
pub fn second_panel_template() -> (r: PanelTemplate)
    ensures
        r@ == second_template(),
{
    PanelTemplate {
        type_id: "SecondPanel".to_owned(),
        title: "Second Tab".to_owned(),
        closable: true,
        zoom: None,
    }
}

/// What a workspace is, as a mathematical value.
pub struct WorkspaceView {
    pub dock_area: DockAreaView,
    pub scheduler: SchedulerView,
    pub registry: RegistryView,
}

/// The dock area of the application with what belongs to it.
pub struct Workspace {
    dock_area: DockArea,
    scheduler: Scheduler,
    registry: PanelRegistry,
}

impl View for Workspace {
    type V = WorkspaceView;

    closed spec fn view(&self) -> WorkspaceView {
        WorkspaceView {
            dock_area: self.dock_area@,
            scheduler: self.scheduler@,
            registry: self.registry@,
        }
    }
}

impl Workspace {
    /// The workspace as it is when the application starts: the registry
    /// knows the two kinds of panel, the main dock area shows the default
    /// layout, and the scheduler is idle.
    pub fn new() -> (r: Workspace)
        ensures
            r@.registry.templates == seq![main_template(), second_template()],
            r@.registry.issued == 2,
            r@.dock_area.id == main_dock_id(),
            r@.dock_area.version == MAIN_DOCK_VERSION,
            r@.dock_area.root == default_layout(),
            r@.dock_area.default_root == default_layout(),
            r@.scheduler == idle_scheduler(),
    {
        let mut registry = PanelRegistry::new();
        let main_name = "MainPanel".to_owned();
        let second_name = "SecondPanel".to_owned();
        proof {
            reveal_strlit("MainPanel");
            reveal_strlit("SecondPanel");
            assert("MainPanel"@.len() != "SecondPanel"@.len());
            let one = seq![main_template()];
            let both = seq![main_template(), second_template()];
            assert(template_position(one, "SecondPanel"@, 1) is None);
            assert(template_position(one, "SecondPanel"@, 0) is None);
            assert(template_position(both, "MainPanel"@, 0) == Some(0int));
            assert(template_position(both, "SecondPanel"@, 1) == Some(1int));
            assert(template_position(both, "SecondPanel"@, 0) == Some(1int));
        }
        let ghost none: Seq<TemplateView> = Seq::empty();
        assert(registry@.templates =~= none);
        registry.register(main_panel_template());
        assert(registry@.templates =~= seq![main_template()]);
        registry.register(second_panel_template());
        assert(registry@.templates =~= seq![main_template(), second_template()]);
        let main = registry.create(&main_name).unwrap();
        let second = registry.create(&second_name).unwrap();
        let mut panels: Vec<Panel> = Vec::new();
        panels.push(main);
        panels.push(second);
        let layout = LayoutNode::Tabs { panels, active: 0 };
        proof {
            lemma_view(&layout);
            assert(panel_views(panels@) =~= seq![
                panel_of(main_template(), 0),
                panel_of(second_template(), 1),
            ]);
            assert(layout@ == default_layout());
        }
        let area = DockArea::new("main-dock".to_owned(), MAIN_DOCK_VERSION, layout);
        Workspace { dock_area: area.unwrap(), scheduler: Scheduler::new(), registry }
    }

    /// The dock area.
    pub fn dock_area(&self) -> (r: &DockArea)
        ensures
            r@ == self@.dock_area,
    {
        &self.dock_area
    }

    /// The scheduler.
    pub fn scheduler(&self) -> (r: &Scheduler)
        ensures
            r@ == self@.scheduler,
    {
        &self.scheduler
    }

    /// Makes a new panel of the type `type_id`, to be put into the layout.
    pub fn create_panel(&mut self, type_id: &String) -> (r: Option<Panel>)
        ensures
            match r {
                Some(p) => made_panel(
                    old(self)@.registry.templates,
                    old(self)@.registry.issued,
                    type_id@,
                ) == Some(p@),
                None => made_panel(
                    old(self)@.registry.templates,
                    old(self)@.registry.issued,
                    type_id@,
                ) is None,
            },
            final(self)@ == (WorkspaceView {
                registry: RegistryView {
                    issued: issued_after(
                        old(self)@.registry.templates,
                        old(self)@.registry.issued,
                        type_id@,
                    ),
                    ..old(self)@.registry
                },
                ..old(self)@
            }),
    {
        self.registry.create(type_id)
    }

    /// Takes the steps of one gesture of the user at the time `now`. Where
    /// the dock area accepts them, the scheduler is told of the one change,
    /// and what it asks for comes back. Where a step is refused, nothing has
    /// changed and the error of that step comes back.
    pub fn apply(&mut self, steps: &Vec<LayoutStep>, now: u64) -> (r: Result<
        SchedulerAction,
        LayoutError,
    >)
        ensures
            match gesture_outcome(old(self)@.dock_area.root, step_views(steps@), steps@.len()) {
                Ok(root) => {
                    &&& r matches Ok(action)
                    &&& action@ == after_change(old(self)@.scheduler, now).1
                    &&& final(self)@ == (WorkspaceView {
                        dock_area: DockAreaView { root, ..old(self)@.dock_area },
                        scheduler: after_change(old(self)@.scheduler, now).0,
                        ..old(self)@
                    })
                },
                Err(e) => r == Err::<SchedulerAction, LayoutError>(e) && final(self)@ == old(
                    self,
                )@,
            },
            final(self)@.dock_area.root.wf(),
    {
        match self.dock_area.apply_gesture(steps) {
            Ok(_) => Ok(self.scheduler.layout_changed(now)),
            Err(e) => Err(e),
        }
    }

    /// A timer has run out at the time `now`.
    pub fn timer_expired(&mut self, now: u64) -> (r: SchedulerAction)
        ensures
            r@ == after_expiry(old(self)@.scheduler, now, snapshot_of(old(self)@.dock_area)).1,
            final(self)@ == (WorkspaceView {
                scheduler: after_expiry(
                    old(self)@.scheduler,
                    now,
                    snapshot_of(old(self)@.dock_area),
                ).0,
                ..old(self)@
            }),
    {
        self.scheduler.timer_expired(now, &self.dock_area)
    }

    /// The write that was under way has ended.
    pub fn write_finished(&mut self, succeeded: bool) -> (r: SchedulerAction)
        ensures
            r@ == after_write(old(self)@.scheduler, succeeded).1,
            final(self)@ == (WorkspaceView {
                scheduler: after_write(old(self)@.scheduler, succeeded).0,
                ..old(self)@
            }),
    {
        self.scheduler.write_finished(succeeded)
    }

    /// The application quits: the layout as it is now is to be written.
    pub fn quit(&mut self) -> (r: SchedulerAction)
        ensures
            r@ == after_shutdown(old(self)@.scheduler, snapshot_of(old(self)@.dock_area)).1,
            final(self)@ == (WorkspaceView {
                scheduler: after_shutdown(
                    old(self)@.scheduler,
                    snapshot_of(old(self)@.dock_area),
                ).0,
                ..old(self)@
            }),
    {
        self.scheduler.shutdown(&self.dock_area)
    }

    /// The panel types that `state` names and the workspace does not know:
    /// the panels that `restore` will pass over.
    pub fn unresolved(&self, state: &PersistedState) -> (r: Vec<String>)
        ensures
            string_views(r@) == unknown_types(self@.registry.templates, state@.root),
    {
        unresolved_types(&state.root, &self.registry)
    }

    /// Takes over a stored layout, as `DockArea::restore` says.
    pub fn restore(&mut self, state: &PersistedState) -> (r: Result<(), RestoreError>)
        ensures
            r == restorable(old(self)@.dock_area, state@),
            final(self)@.dock_area == (DockAreaView {
                root: restored_root(old(self)@.dock_area, state@, old(self)@.registry),
                ..old(self)@.dock_area
            }),
            final(self)@.dock_area.root.wf(),
            r is Err ==> final(self)@.dock_area.root == old(self)@.dock_area.default_root,
            final(self)@.scheduler == old(self)@.scheduler,
            final(self)@.registry.templates == old(self)@.registry.templates,
    {
        self.dock_area.restore(state, &mut self.registry)
    }
}

} // verus!
