//! Panels, the content units that a layout arranges, and the registry that
//! knows how to make a panel of a given type.

use vstd::prelude::*;

verus! {

/// The direction along which a split lays out its children.
#[derive(Clone, Copy, Debug, PartialEq, Eq, Structural)]
pub enum Axis {
    Horizontal,
    Vertical,
}

/// Where the control that zooms a panel is shown.
#[derive(Clone, Copy, Debug, PartialEq, Eq, Structural)]
pub enum ZoomMode {
    Both,
    Menu,
    Toolbar,
}

/// What a panel is, as a mathematical value.
pub struct PanelView {
    pub id: u64,
    pub type_id: Seq<char>,
    pub title: Seq<char>,
    pub closable: bool,
    pub zoom: Option<ZoomMode>,
}

/// A content unit of the workspace.
///
/// `id` tells one live panel from another. `type_id` names the kind of panel
/// and is all that a stored layout keeps of it.
#[derive(Clone, Debug, PartialEq, Eq)]
pub struct Panel {
    pub id: u64,
    pub type_id: String,
    pub title: String,
    pub closable: bool,
    pub zoom: Option<ZoomMode>,
}

impl View for Panel {
    type V = PanelView;

    open spec fn view(&self) -> PanelView {
        PanelView {
            id: self.id,
            type_id: self.type_id@,
            title: self.title@,
            closable: self.closable,
            zoom: self.zoom,
        }
    }
}

impl Panel {
    /// A panel with the same identity and content.
    pub fn duplicate(&self) -> (r: Panel)
        ensures
            r@ == self@,
    {
        Panel {
            id: self.id,
            type_id: self.type_id.clone(),
            title: self.title.clone(),
            closable: self.closable,
            zoom: self.zoom,
        }
    }

    /// The name of the kind of panel.
    pub fn type_id(&self) -> (r: &String)
        ensures
            r@ == self@.type_id,
    {
        &self.type_id
    }

    /// The title shown on the panel's tab.
    pub fn title(&self) -> (r: &String)
        ensures
            r@ == self@.title,
    {
        &self.title
    }

    /// Whether the user may close the panel.
    pub fn closable(&self) -> (r: bool)
        ensures
            r == self@.closable,
    {
        self.closable
    }

    /// How the panel can be zoomed, if at all.
    pub fn zoom_capability(&self) -> (r: Option<ZoomMode>)
        ensures
            r == self@.zoom,
    {
        self.zoom
    }
}

/// The views of a sequence of panels, in order.
pub open spec fn panel_views(panels: Seq<Panel>) -> Seq<PanelView> {
    Seq::new(panels.len(), |i: int| panels[i]@)
}

/// The first index from `start` on at which `panels` holds the panel `id`.
pub open spec fn panel_position(panels: Seq<PanelView>, id: u64, start: int) -> Option<int>
    decreases panels.len() - start,
{
    if start < 0 || start >= panels.len() {
        None
    } else if panels[start].id == id {
        Some(start)
    } else {
        panel_position(panels, id, start + 1)
    }
}

/// A position that `panel_position` finds is in range, holds the panel looked
/// for, and no earlier position from `start` on does; where it finds none, no
/// position from `start` on holds that panel.
pub proof fn lemma_panel_position(panels: Seq<PanelView>, id: u64, start: int)
    requires
        0 <= start,
    ensures
        match panel_position(panels, id, start) {
            Some(i) => start <= i < panels.len() && panels[i].id == id && forall|j: int|
                start <= j < i ==> panels[j].id != id,
            None => forall|j: int| start <= j < panels.len() ==> panels[j].id != id,
        },
    decreases panels.len() - start,
{
    if start < panels.len() && panels[start].id != id {
        lemma_panel_position(panels, id, start + 1);
    }
}

/// What a kind of panel is, as a mathematical value.
pub struct TemplateView {
    pub type_id: Seq<char>,
    pub title: Seq<char>,
    pub closable: bool,
    pub zoom: Option<ZoomMode>,
}

/// A kind of panel: everything that panels of one type have in common.
#[derive(Clone, Debug, PartialEq, Eq)]
pub struct PanelTemplate {
    pub type_id: String,
    pub title: String,
    pub closable: bool,
    pub zoom: Option<ZoomMode>,
}

impl View for PanelTemplate {
    type V = TemplateView;

    open spec fn view(&self) -> TemplateView {
        TemplateView {
            type_id: self.type_id@,
            title: self.title@,
            closable: self.closable,
            zoom: self.zoom,
        }
    }
}

/// The views of a sequence of templates, in order.
pub open spec fn template_views(templates: Seq<PanelTemplate>) -> Seq<TemplateView> {
    Seq::new(templates.len(), |i: int| templates[i]@)
}

/// The first index from `start` on at which `templates` holds the type `type_id`.
pub open spec fn template_position(
    templates: Seq<TemplateView>,
    type_id: Seq<char>,
    start: int,
) -> Option<int>
    decreases templates.len() - start,
{
    if start < 0 || start >= templates.len() {
        None
    } else if templates[start].type_id == type_id {
        Some(start)
    } else {
        template_position(templates, type_id, start + 1)
    }
}

/// A position that `template_position` finds is in range and holds the type
/// looked for; where it finds none, no position from `start` on holds it.
pub proof fn lemma_template_position(templates: Seq<TemplateView>, type_id: Seq<char>, start: int)
    requires
        0 <= start,
    ensures
        match template_position(templates, type_id, start) {
            Some(i) => start <= i < templates.len() && templates[i].type_id == type_id,
            None => forall|j: int|
                start <= j < templates.len() ==> templates[j].type_id != type_id,
        },
    decreases templates.len() - start,
{
    if start < templates.len() && templates[start].type_id != type_id {
        lemma_template_position(templates, type_id, start + 1);
    }
}

/// Whether `templates` knows the type `type_id`.
pub open spec fn knows(templates: Seq<TemplateView>, type_id: Seq<char>) -> bool {
    template_position(templates, type_id, 0) is Some
}

/// The panel that a registry with the given templates makes for `type_id`
/// when it has handed out `issued` panels before: none where the type is
/// unknown or the identities are used up.
pub open spec fn made_panel(templates: Seq<TemplateView>, issued: u64, type_id: Seq<char>) -> Option<
    PanelView,
> {
    match template_position(templates, type_id, 0) {
        Some(i) => if issued < u64::MAX {
            Some(
                PanelView {
                    id: issued,
                    type_id: templates[i].type_id,
                    title: templates[i].title,
                    closable: templates[i].closable,
                    zoom: templates[i].zoom,
                },
            )
        } else {
            None
        },
        None => None,
    }
}

/// The number of panels handed out once `type_id` has been asked for.
pub open spec fn issued_after(templates: Seq<TemplateView>, issued: u64, type_id: Seq<char>) -> u64 {
    if made_panel(templates, issued, type_id) is Some {
        (issued + 1) as u64
    } else {
        issued
    }
}

/// What a registry is, as a mathematical value.
pub struct RegistryView {
    pub templates: Seq<TemplateView>,
    pub issued: u64,
}

/// The kinds of panel that the application offers, and the source of panel
/// identities: each panel it makes gets an identity that it has never given
/// out before.
pub struct PanelRegistry {
    templates: Vec<PanelTemplate>,
    issued: u64,
}

impl View for PanelRegistry {
    type V = RegistryView;

    closed spec fn view(&self) -> RegistryView {
        RegistryView { templates: template_views(self.templates@), issued: self.issued }
    }
}

impl PanelRegistry {
    /// A registry that knows no type and has made no panel.
    pub fn new() -> (r: PanelRegistry)
        ensures
            r@.templates.len() == 0,
            r@.issued == 0,
    {
        let r = PanelRegistry { templates: Vec::new(), issued: 0 };
        assert(r@.templates =~= Seq::empty());
        r
    }

    /// The index of the template for `type_id`, if the registry knows the type.
    pub fn resolve(&self, type_id: &String) -> (r: Option<usize>)
        ensures
            match r {
                Some(i) => template_position(self@.templates, type_id@, 0) == Some(i as int),
                None => template_position(self@.templates, type_id@, 0) is None,
            },
    {
        let mut i: usize = 0;
        while i < self.templates.len()
            invariant
                i <= self.templates.len(),
                self@.templates == template_views(self.templates@),
                template_position(self@.templates, type_id@, 0) == template_position(
                    self@.templates,
                    type_id@,
                    i as int,
                ),
            decreases self.templates.len() - i,
        {
            if self.templates[i].type_id == *type_id {
                return Some(i);
            }
            i = i + 1;
        }
        None
    }

    /// Adds a kind of panel. A type that the registry already knows is not
    /// added again: the registry is then left as it was and `false` comes back.
    pub fn register(&mut self, template: PanelTemplate) -> (added: bool)
        ensures
            added == !knows(old(self)@.templates, template@.type_id),
            added ==> final(self)@.templates == old(self)@.templates.push(template@),
            !added ==> final(self)@ == old(self)@,
            final(self)@.issued == old(self)@.issued,
    {
        if self.resolve(&template.type_id).is_some() {
            return false;
        }
        self.templates.push(template);
        assert(self@.templates =~= old(self)@.templates.push(template@));
        true
    }

    /// Makes a new panel of the type `type_id`, with an identity that no panel
    /// made by this registry has. No panel is made where the type is unknown
    /// or all identities are used up.
    pub fn create(&mut self, type_id: &String) -> (r: Option<Panel>)
        ensures
            match r {
                Some(p) => made_panel(old(self)@.templates, old(self)@.issued, type_id@) == Some(
                    p@,
                ),
                None => made_panel(old(self)@.templates, old(self)@.issued, type_id@) is None,
            },
            final(self)@.templates == old(self)@.templates,
            final(self)@.issued == issued_after(old(self)@.templates, old(self)@.issued, type_id@),
    {
        match self.resolve(type_id) {
            Some(i) => {
                if self.issued < u64::MAX {
                    proof {
                        lemma_template_position(self@.templates, type_id@, 0);
                    }
                    let t = &self.templates[i];
                    let p = Panel {
                        id: self.issued,
                        type_id: t.type_id.clone(),
                        title: t.title.clone(),
                        closable: t.closable,
                        zoom: t.zoom,
                    };
                    self.issued = self.issued + 1;
                    Some(p)
                } else {
                    None
                }
            },
            None => None,
        }
    }

    /// How many panels the registry has made.
    pub fn issued(&self) -> (r: u64)
        ensures
            r == self@.issued,
    {
        self.issued
    }
}

} // verus!
