//! The side bar: the list of projects and that of conversations, the form for a
//! new project, and the menus.
use crate::text::{blank, decimal, push_decimal, same_text, trim, trimmed, trimmed_is_empty_iff_blank};
use crate::workspace::{find_project, project_place, Conversation, Project, SettingsTab, SidebarView, Workspace};
use vstd::prelude::*;

verus! {

/// The colour of a project: cyan where none was chosen.
pub open spec fn color_key(color: Seq<char>) -> Seq<char> {
    if color.len() == 0 {
        "cyan"@
    } else {
        color
    }
}

/// The colour of a project.
pub fn indicator_color(p: &Project) -> (r: String)
    ensures
        r@ == color_key(p.indicator_color@),
{
    if p.indicator_color.as_str().is_empty() {
        "cyan".to_owned()
    } else {
        p.indicator_color.clone()
    }
}

/// The colour that the menu of a project marks: cyan where there is no such
/// project.
pub fn menu_color(projects: &Vec<Project>, id: &str) -> (r: String)
    ensures
        r@ == match project_place(projects@, id@, 0) {
            Some(i) => color_key(projects@[i].indicator_color@),
            None => "cyan"@,
        },
{
    match find_project(projects, id) {
        Some(i) => indicator_color(&projects[i]),
        None => "cyan".to_owned(),
    }
}

/// The colours that a project can have, each with its key.
pub fn color_swatches() -> (r: Vec<(&'static str, &'static str)>)
    ensures
        r@.len() == 7,
        ((r@[0].0)@, (r@[0].1)@) == ("cyan"@, "oklch(72% 0.20 200)"@),
        ((r@[1].0)@, (r@[1].1)@) == ("pink"@, "oklch(68% 0.22 330)"@),
        ((r@[2].0)@, (r@[2].1)@) == ("green"@, "oklch(66% 0.18 145)"@),
        ((r@[3].0)@, (r@[3].1)@) == ("orange"@, "oklch(70% 0.18 50)"@),
        ((r@[4].0)@, (r@[4].1)@) == ("violet"@, "oklch(65% 0.16 280)"@),
        ((r@[5].0)@, (r@[5].1)@) == ("blue"@, "oklch(60% 0.20 240)"@),
        ((r@[6].0)@, (r@[6].1)@) == ("gold"@, "oklch(72% 0.16 85)"@),
{
    vec![
        ("cyan", "oklch(72% 0.20 200)"),
        ("pink", "oklch(68% 0.22 330)"),
        ("green", "oklch(66% 0.18 145)"),
        ("orange", "oklch(70% 0.18 50)"),
        ("violet", "oklch(65% 0.16 280)"),
        ("blue", "oklch(60% 0.20 240)"),
        ("gold", "oklch(72% 0.16 85)"),
    ]
}

/// Whether a project was active within the last three days. Times are in
/// milliseconds since the epoch.
pub fn is_recent(p: &Project, now: i64) -> (r: bool)
    ensures
        r == (p.last_activity_at is Some && now - p.last_activity_at->0 < 259_200_000),
{
    match p.last_activity_at {
        Some(t) => (now as i128) - (t as i128) < 259_200_000,
        None => false,
    }
}

impl Workspace {
    /// Whether this is the active project.
    pub fn is_active_project(&self, id: &str) -> (r: bool)
        ensures
            r == (self.active_project_id is Some && self.active_project_id->0@ == id@),
    {
        match &self.active_project_id {
            Some(a) => same_text(a.as_str(), id),
            None => false,
        }
    }

    /// Something is coming in in the project with this id.
    pub open spec fn streams_in(self, id: Seq<char>) -> bool {
        exists|i: int| 0 <= i < self.streaming_project_id@.len() && (#[trigger] self.streaming_project_id@[i])@ == id
    }

    /// Whether something is coming in in this project.
    pub fn is_streaming_project(&self, id: &str) -> (r: bool)
        ensures
            r == self.streams_in(id@),
    {
        let mut i: usize = 0;
        while i < self.streaming_project_id.len()
            invariant
                i <= self.streaming_project_id@.len(),
                forall|k: int| 0 <= k < i ==> (#[trigger] self.streaming_project_id@[k])@ != id@,
            decreases self.streaming_project_id@.len() - i,
        {
            if same_text(self.streaming_project_id[i].as_str(), id) {
                assert(self.streaming_project_id@[i as int]@ == id@);
                return true;
            }
            i = i + 1;
        }
        false
    }

    /// Shows a page of the settings.
    pub fn open_settings(&mut self, tab: SettingsTab)
        ensures
            *final(self) == (Workspace { sidebar_view: SidebarView::Settings(tab), ..*old(self) }),
    {
        self.sidebar_view = SidebarView::Settings(tab);
    }

    /// The name of the project whose conversations are listed.
    pub fn listed_project_name(&self, id: &str) -> (r: String)
        ensures
            r@ == match project_place(self.projects@, id@, 0) {
                Some(i) => self.projects@[i].name@,
                None => Seq::<char>::empty(),
            },
    {
        match find_project(&self.projects, id) {
            Some(i) => self.projects[i].name.clone(),
            None => String::new(),
        }
    }
}

/// The pages of the settings, in their order.
pub fn settings_tabs() -> (r: Vec<SettingsTab>)
    ensures
        r@ == seq![
            SettingsTab::Providers,
            SettingsTab::AgentConfigs,
            SettingsTab::SubAgents,
            SettingsTab::General,
            SettingsTab::Appearance,
            SettingsTab::Tools,
            SettingsTab::Sql,
        ],
{
    vec![
        SettingsTab::Providers,
        SettingsTab::AgentConfigs,
        SettingsTab::SubAgents,
        SettingsTab::General,
        SettingsTab::Appearance,
        SettingsTab::Tools,
        SettingsTab::Sql,
    ]
}

/// The title of a conversation, and the style class of it.
pub open spec fn title_shown(c: Conversation) -> (Seq<char>, Seq<char>) {
    if c.title@.len() == 0 {
        ("new conversation"@, "conversation-title-placeholder"@)
    } else {
        (c.title@, "conversation-title"@)
    }
}

/// The title of a conversation, and the style class of it.
pub fn conversation_title(c: &Conversation) -> (r: (String, &'static str))
    ensures
        ((r.0)@, (r.1)@) == title_shown(*c),
{
    if c.title.as_str().is_empty() {
        ("new conversation".to_owned(), "conversation-title-placeholder")
    } else {
        (c.title.clone(), "conversation-title")
    }
}

/// How many rounds a conversation has; nothing where it has none.
pub open spec fn rounds_text(rounds: nat) -> Option<Seq<char>> {
    if rounds == 0 {
        None
    } else if rounds == 1 {
        Some("1 round"@)
    } else {
        Some(decimal(rounds) + " rounds"@)
    }
}

/// How many rounds a conversation has.
pub fn rounds_label(rounds: usize) -> (r: Option<String>)
    ensures
        crate::model::opt_text(r) == rounds_text(rounds as nat),
{
    if rounds == 0 {
        None
    } else if rounds == 1 {
        Some("1 round".to_owned())
    } else {
        let mut s = String::new();
        push_decimal(&mut s, rounds as u64);
        s.append(" rounds");
        assert(s@ =~= decimal(rounds as nat) + " rounds"@);
        Some(s)
    }
}

/// The form for a new project.
#[derive(Debug)]
pub struct ProjectForm {
    pub shown: bool,
    pub name: String,
    pub path: String,
}

impl ProjectForm {
    pub fn new() -> (r: ProjectForm)
        ensures
            !r.shown,
            r.name@.len() == 0,
            r.path@.len() == 0,
    {
        ProjectForm { shown: false, name: String::new(), path: String::new() }
    }

    /// Shows an empty form, or hides it.
    pub fn toggle(&mut self)
        ensures
            final(self).shown == !old(self).shown,
            old(self).shown ==> final(self).name == old(self).name && final(self).path == old(self).path,
            !old(self).shown ==> final(self).name@.len() == 0 && final(self).path@.len() == 0,
    {
        self.shown = !self.shown;
        if self.shown {
            self.name = String::new();
            self.path = String::new();
        }
    }

    /// A folder was chosen: its path, and its name where it has one.
    pub fn folder_chosen(&mut self, path: String, name: Option<String>)
        ensures
            *final(self) == (ProjectForm {
                path,
                name: match name {
                    Some(n) => n,
                    None => old(self).name,
                },
                ..*old(self)
            }),
    {
        self.path = path;
        if let Some(n) = name {
            self.name = n;
        }
    }

    /// Hides the form.
    pub fn cancel(&mut self)
        ensures
            !final(self).shown,
            final(self).name@.len() == 0,
            final(self).path == old(self).path,
    {
        self.shown = false;
        self.name = String::new();
    }

    /// The user wants to save. Returns the name and the path without the white
    /// space at their ends, and hides the form, unless one of them is missing.
    pub fn save(&mut self) -> (r: Option<(String, String)>)
        ensures
            if blank(old(self).name@) || blank(old(self).path@) {
                r is None && *final(self) == *old(self)
            } else {
                &&& r is Some
                &&& (r->0).0@ == trimmed(old(self).name@)
                &&& (r->0).1@ == trimmed(old(self).path@)
                &&& !final(self).shown
                &&& final(self).name@.len() == 0
                &&& final(self).path == old(self).path
            },
    {
        let name = trim(self.name.as_str());
        let path = trim(self.path.as_str());
        proof {
            trimmed_is_empty_iff_blank(self.name@);
            trimmed_is_empty_iff_blank(self.path@);
        }
        if name.as_str().is_empty() || path.as_str().is_empty() {
            return None;
        }
        self.shown = false;
        self.name = String::new();
        Some((name, path))
    }
}

/// A menu at a place of the window, in thousandths of a pixel, for the item with
/// this id.
#[derive(Debug)]
pub struct ContextMenu {
    pub open: Option<(i64, i64, String)>,
}

impl ContextMenu {
    pub fn new() -> (r: ContextMenu)
        ensures
            r.open is None,
    {
        ContextMenu { open: None }
    }

    /// Opens the menu.
    pub fn open_at(&mut self, x: i64, y: i64, id: String)
        ensures
            final(self).open == Some((x, y, id)),
    {
        self.open = Some((x, y, id));
    }

    /// Closes the menu.
    pub fn close(&mut self)
        ensures
            final(self).open is None,
    {
        self.open = None;
    }
}

/// What the menu of a project offers: to delete it, unless it is the default
/// project.
pub fn delete_entry(w: &Workspace, id: &str) -> (r: (&'static str, bool))
    ensures
        r.1 == (id@ != w.default_project_id@),
        (r.0)@ == if id@ != w.default_project_id@ {
            "delete project"@
        } else {
            "cannot delete default"@
        },
{
    if w.can_delete_project(id) {
        ("delete project", true)
    } else {
        ("cannot delete default", false)
    }
}

} // verus!
